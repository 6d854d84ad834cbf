//! Watches a stream of log lines for a pattern and reports the exact line on
//! which the number of matches inside a rolling time window first reaches a
//! threshold.
pub mod action;
pub mod duration;
pub mod matcher;
pub mod tail;
pub mod text;
pub mod window;

use vstd::prelude::*;

use duration::Duration;
use matcher::{regex_matches, Matcher};
use window::{SlidingWindow, Timestamp, WindowState};

verus! {

/// What a [`Tripwire`] holds: the regex source its pattern was compiled
/// from, its window, and the threshold and window length it was set up with.
pub struct TripwireState {
    pub source: Seq<char>,
    pub window: WindowState,
    pub threshold: nat,
    pub window_duration: nat,
}

/// Ties a compiled pattern to its rolling window: every tailed line goes
/// through [`Tripwire::check`], which is `true` only on the exact line that
/// brings the in-window match count to the threshold.
pub struct Tripwire {
    matcher: Matcher,
    window: SlidingWindow,
    threshold: usize,
    window_duration: Duration,
}

impl View for Tripwire {
    type V = TripwireState;

    closed spec fn view(&self) -> TripwireState {
        TripwireState {
            source: self.matcher.source(),
            window: self.window@,
            threshold: self.threshold as nat,
            window_duration: self.window_duration@,
        }
    }
}

impl Tripwire {
    /// A tripwire for `matcher` that fires when `threshold` matches fall
    /// within `window_duration` (a threshold of zero counts as one).
    pub fn new(matcher: Matcher, window_duration: Duration, threshold: usize) -> (t: Tripwire)
        ensures
            t@.source == matcher.source(),
            t@.window == (WindowState {
                window: window_duration@,
                threshold: if threshold == 0 {
                    1
                } else {
                    threshold as nat
                },
                recorded: Seq::empty(),
            }),
            t@.threshold == threshold,
            t@.window_duration == window_duration@,
    {
        Tripwire {
            matcher,
            window: SlidingWindow::new(window_duration, threshold),
            threshold,
            window_duration,
        }
    }

    /// The threshold as it was given.
    pub fn threshold(&self) -> (n: usize)
        ensures
            n == self@.threshold,
    {
        self.threshold
    }

    /// The window's length.
    pub fn window_duration(&self) -> (d: Duration)
        ensures
            d@ == self@.window_duration,
    {
        self.window_duration
    }

    /// Takes the outcome of testing a line against the pattern: a match is
    /// recorded at `now` and reports whether it tripped the wire; a line
    /// that did not match changes nothing.
    pub fn observe(&mut self, matched: bool, now: Timestamp) -> (fired: bool)
        ensures
            final(self)@.source == old(self)@.source,
            final(self)@.threshold == old(self)@.threshold,
            final(self)@.window_duration == old(self)@.window_duration,
            matched ==> fired == old(self)@.window.fires_at(now@) && final(self)@.window == old(
                self,
            )@.window.recorded_at(now@),
            !matched ==> !fired && final(self)@.window == old(self)@.window,
    {
        if !matched {
            return false;
        }
        self.window.record(now)
    }

    /// Feeds one line through the pattern and, if it matches, the window;
    /// `true` exactly when this line is the one that brought the count to
    /// the threshold. Lines that do not match never touch the window.
    pub fn check(&mut self, line: &str, now: Timestamp) -> (fired: bool)
        ensures
            final(self)@.source == old(self)@.source,
            final(self)@.threshold == old(self)@.threshold,
            final(self)@.window_duration == old(self)@.window_duration,
            regex_matches(old(self)@.source, line@) ==> fired == old(self)@.window.fires_at(now@)
                && final(self)@.window == old(self)@.window.recorded_at(now@),
            !regex_matches(old(self)@.source, line@) ==> !fired && final(self)@.window == old(
                self,
            )@.window,
    {
        let matched = self.matcher.is_match(line);
        self.observe(matched, now)
    }
}

} // verus!
