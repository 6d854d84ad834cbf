//! The rolling-window match counter: the pure decision of when a run of
//! matches trips the wire. Times come in as [`Timestamp`]s, so every branch
//! can be driven with chosen instants rather than a real clock.
use vstd::prelude::*;

use crate::duration::Duration;
use std::collections::VecDeque;

verus! {

/// An instant on a monotonic clock, in nanoseconds since an arbitrary origin.
#[derive(Clone, Copy, Debug, PartialEq, Eq, Structural, Hash)]
pub struct Timestamp {
    nanos: u64,
}

impl View for Timestamp {
    type V = nat;

    closed spec fn view(&self) -> nat {
        self.nanos as nat
    }
}

impl Timestamp {
    /// The instant `nanos` nanoseconds after the origin.
    pub fn from_nanos(nanos: u64) -> (t: Timestamp)
        ensures
            t@ == nanos,
    {
        Timestamp { nanos }
    }

    /// Nanoseconds since the origin.
    pub fn as_nanos(&self) -> (n: u64)
        ensures
            n == self@,
    {
        self.nanos
    }

    /// The instant `d` after this one.
    pub fn plus(&self, d: Duration) -> (t: Timestamp)
        requires
            self@ + d@ <= u64::MAX,
        ensures
            t@ == self@ + d@,
    {
        Timestamp { nanos: self.nanos + d.as_nanos() as u64 }
    }

    /// The span from `earlier` to this instant, or zero if `earlier` is in
    /// fact later.
    pub fn saturating_since(&self, earlier: Timestamp) -> (d: Duration)
        ensures
            d@ == if self@ >= earlier@ {
                self@ - earlier@
            } else {
                0
            },
    {
        if self.nanos >= earlier.nanos {
            Duration::from_nanos(self.nanos - earlier.nanos)
        } else {
            Duration::from_nanos(0)
        }
    }
}

/// What a [`SlidingWindow`] holds: the window's length, the threshold, and
/// the instants of the matches it still counts, oldest first.
pub struct WindowState {
    pub window: nat,
    pub threshold: nat,
    pub recorded: Seq<nat>,
}

/// A match at `t` has aged out at `now`: it lies more than `window` before
/// `now`. The window is the closed interval `[now - window, now]`.
pub open spec fn aged_out(t: nat, now: nat, window: nat) -> bool {
    now > t + window
}

/// `s` without the run of aged-out instants at its front.
pub open spec fn pruned(s: Seq<nat>, now: nat, window: nat) -> Seq<nat>
    decreases s.len(),
{
    if s.len() > 0 && aged_out(s[0], now, window) {
        pruned(s.drop_first(), now, window)
    } else {
        s
    }
}

impl WindowState {
    /// The state once the matches that aged out by `now` are dropped.
    pub open spec fn pruned_at(self, now: nat) -> WindowState {
        WindowState { recorded: pruned(self.recorded, now, self.window), ..self }
    }

    /// How many matches count at `now`.
    pub open spec fn count_at(self, now: nat) -> nat {
        pruned(self.recorded, now, self.window).len()
    }

    /// Whether a match at `now` trips the wire: the count was below the
    /// threshold and this match brings it to the threshold.
    pub open spec fn fires_at(self, now: nat) -> bool {
        self.count_at(now) < self.threshold && self.count_at(now) + 1 >= self.threshold
    }

    /// The state after a match at `now` is recorded.
    pub open spec fn recorded_at(self, now: nat) -> WindowState {
        WindowState { recorded: pruned(self.recorded, now, self.window).push(now), ..self }
    }
}

/// Counts how many matches landed within the trailing window and reports
/// when that count first reaches the threshold: edge-triggered, so a flood
/// of matches past the threshold fires once, and the window re-arms once
/// the count has fallen below the threshold again.
pub struct SlidingWindow {
    window: Duration,
    threshold: usize,
    timestamps: VecDeque<u64>,
}

impl View for SlidingWindow {
    type V = WindowState;

    closed spec fn view(&self) -> WindowState {
        WindowState {
            window: self.window@,
            threshold: self.threshold as nat,
            recorded: self.timestamps@.map_values(|t: u64| t as nat),
        }
    }
}

impl SlidingWindow {
    #[verifier::type_invariant]
    spec fn threshold_positive(self) -> bool {
        self.threshold >= 1
    }

    /// An empty window of length `window`; a threshold of zero is taken as
    /// one, since a wire that trips before any match means nothing.
    pub fn new(window: Duration, threshold: usize) -> (w: SlidingWindow)
        ensures
            w@.window == window@,
            w@.threshold == if threshold == 0 {
                1
            } else {
                threshold as nat
            },
            w@.recorded == Seq::<nat>::empty(),
    {
        let w = SlidingWindow {
            window,
            threshold: if threshold == 0 {
                1
            } else {
                threshold
            },
            timestamps: VecDeque::new(),
        };
        assert(w@.recorded =~= Seq::<nat>::empty());
        w
    }

    /// Drops the recorded matches at the front that have aged out by `now`.
    fn prune(&mut self, now: Timestamp)
        ensures
            final(self)@ == old(self)@.pruned_at(now@),
    {
        let ghost window = self.window@;
        let ghost start = self@.recorded;
        let mut timestamps: VecDeque<u64> = VecDeque::new();
        proof {
            use_type_invariant(&*self);
        }
        std::mem::swap(&mut timestamps, &mut self.timestamps);
        assert(timestamps@.map_values(|t: u64| t as nat) == start);
        while timestamps.len() > 0 && now.saturating_since(
            Timestamp::from_nanos(timestamps[0]),
        ).is_longer_than(&self.window)
            invariant
                self.window@ == window,
                pruned(start, now@, window) == pruned(
                    timestamps@.map_values(|t: u64| t as nat),
                    now@,
                    window,
                ),
            decreases timestamps@.len(),
        {
            let ghost before = timestamps@.map_values(|t: u64| t as nat);
            timestamps.pop_front();
            assert(timestamps@.map_values(|t: u64| t as nat) =~= before.drop_first());
        }
        assert(pruned(timestamps@.map_values(|t: u64| t as nat), now@, window)
            == timestamps@.map_values(|t: u64| t as nat));
        self.timestamps = timestamps;
    }

    /// Records one match at `now`; `true` exactly when this match brings the
    /// in-window count to the threshold from below it.
    pub fn record(&mut self, now: Timestamp) -> (fired: bool)
        ensures
            fired == old(self)@.fires_at(now@),
            final(self)@ == old(self)@.recorded_at(now@),
            old(self)@.threshold >= 1,
    {
        proof {
            use_type_invariant(&*self);
        }
        self.prune(now);
        let was_below = self.timestamps.len() < self.threshold;
        let ghost before = self@.recorded;
        let mut timestamps: VecDeque<u64> = VecDeque::new();
        proof {
            use_type_invariant(&*self);
        }
        std::mem::swap(&mut timestamps, &mut self.timestamps);
        timestamps.push_back(now.as_nanos());
        self.timestamps = timestamps;
        assert(self@.recorded =~= before.push(now@));
        was_below && self.timestamps.len() >= self.threshold
    }

    /// The in-window count at `now`, after dropping what has aged out.
    pub fn count(&mut self, now: Timestamp) -> (n: usize)
        ensures
            n == old(self)@.count_at(now@),
            final(self)@ == old(self)@.pruned_at(now@),
            old(self)@.threshold >= 1,
    {
        proof {
            use_type_invariant(&*self);
        }
        self.prune(now);
        self.timestamps.len()
    }
}

/// The state after matches at each of `times` in turn.
pub open spec fn after_all(s: WindowState, times: Seq<nat>) -> WindowState
    decreases times.len(),
{
    if times.len() == 0 {
        s
    } else {
        after_all(s, times.drop_last()).recorded_at(times.last())
    }
}

/// Whether each of the matches at `times`, recorded in turn, tripped the wire.
pub open spec fn firings(s: WindowState, times: Seq<nat>) -> Seq<bool>
    decreases times.len(),
{
    if times.len() == 0 {
        Seq::empty()
    } else {
        firings(s, times.drop_last()).push(after_all(s, times.drop_last()).fires_at(times.last()))
    }
}

pub open spec fn nondecreasing(s: Seq<nat>) -> bool {
    forall|i: int, j: int| 0 <= i <= j < s.len() ==> s[i] <= s[j]
}

/// The count only falls below the threshold again, and so the wire only
/// re-arms, once matches age out: while the in-window count is at or past
/// the threshold, a further match does not fire.
pub proof fn lemma_no_refire_at_or_past_threshold(s: WindowState, now: nat)
    requires
        s.count_at(now) >= s.threshold,
    ensures
        !s.fires_at(now),
{
}

/// A match fires exactly when it is the one that brings the in-window count
/// up to the threshold.
pub proof fn lemma_fires_on_the_crossing_match(s: WindowState, now: nat)
    requires
        s.threshold >= 1,
    ensures
        s.fires_at(now) <==> s.count_at(now) + 1 == s.threshold,
{
}

/// Within a flood, the matches never age out of each other: after the first
/// `n` of them the window holds exactly those.
proof fn lemma_flood_prefix(s: WindowState, times: Seq<nat>, n: nat)
    requires
        1 <= n <= times.len(),
        s.count_at(times[0]) == 0,
        nondecreasing(times),
        times.last() <= times[0] + s.window,
    ensures
        after_all(s, times.take(n as int)).recorded == times.take(n as int),
        after_all(s, times.take(n as int)).window == s.window,
        after_all(s, times.take(n as int)).threshold == s.threshold,
        firings(s, times.take(n as int)) == Seq::new(n, |i: int| i + 1 == s.threshold),
    decreases n,
{
    let prefix = times.take(n as int);
    assert(prefix.drop_last() =~= times.take(n - 1));
    if n == 1 {
        assert(times.take(0) =~= Seq::<nat>::empty());
        assert(after_all(s, times.take(0)) == s);
        assert(firings(s, times.take(0)) =~= Seq::<bool>::empty());
        assert(pruned(s.recorded, times[0], s.window).len() == 0);
        assert(pruned(s.recorded, times[0], s.window) =~= Seq::<nat>::empty());
        assert(after_all(s, prefix).recorded =~= prefix);
        assert(firings(s, prefix) =~= Seq::new(n, |i: int| i + 1 == s.threshold));
    } else {
        lemma_flood_prefix(s, times, (n - 1) as nat);
        let before = after_all(s, times.take(n - 1));
        let now = times[n - 1];
        assert(prefix.last() == now);
        // The oldest match in the window is the first of the flood, no more
        // than one window before any later one.
        assert(times[0] <= now <= times[times.len() - 1]);
        assert(before.recorded[0] == times[0]);
        assert(!aged_out(before.recorded[0], now, before.window));
        assert(pruned(before.recorded, now, before.window) == before.recorded);
        assert(before.count_at(now) == n - 1);
        assert(after_all(s, prefix).recorded =~= prefix);
        assert(firings(s, prefix) =~= Seq::new(n, |i: int| i + 1 == s.threshold));
    }
}

/// One flood, one alert: when matches arrive in time order, all within one
/// window of the first, and the window counted nothing when the first
/// arrived (it is new, or every earlier match has aged out, so it has
/// re-armed), exactly the match that brings the count to the threshold
/// fires, and no other.
pub proof fn lemma_one_flood_fires_once(s: WindowState, times: Seq<nat>)
    requires
        s.threshold >= 1,
        times.len() > 0,
        s.count_at(times[0]) == 0,
        nondecreasing(times),
        times.last() <= times[0] + s.window,
    ensures
        firings(s, times).len() == times.len(),
        forall|i: int| 0 <= i < times.len() ==> #[trigger] firings(s, times)[i] == (i + 1
            == s.threshold),
{
    lemma_flood_prefix(s, times, times.len());
    assert(times.take(times.len() as int) =~= times);
}

/// What the count counts: when the matches were recorded in time order, the
/// window keeps exactly those no more than `window` before `now`, that is,
/// within the closed interval `[now - window, now]` when none lies after
/// `now`.
pub proof fn lemma_count_is_matches_in_window(s: Seq<nat>, now: nat, window: nat)
    requires
        nondecreasing(s),
    ensures
        pruned(s, now, window) == s.filter(|t: nat| now <= t + window),
    decreases s.len(),
{
    let keep = |t: nat| now <= t + window;
    if s.len() == 0 {
        assert(s.filter(keep) =~= Seq::<nat>::empty());
    } else if aged_out(s[0], now, window) {
        let r = s.drop_first();
        assert(nondecreasing(r)) by {
            assert forall|i: int, j: int| 0 <= i <= j < r.len() implies r[i] <= r[j] by {
                assert(r[i] == s[i + 1] && r[j] == s[j + 1]);
            }
        }
        lemma_count_is_matches_in_window(r, now, window);
        assert(s =~= seq![s[0]] + r);
        r.lemma_filter_prepend(s[0], keep);
        assert(s.filter(keep) =~= r.filter(keep));
    } else {
        // The oldest match is still in the window, and so is every later one.
        assert forall|i: int| 0 <= i < s.len() implies #[trigger] keep(s[i]) by {
            assert(s[0] <= s[i]);
        }
        lemma_filter_keeps_all(s, keep);
    }
}

proof fn lemma_filter_keeps_all(s: Seq<nat>, keep: spec_fn(nat) -> bool)
    requires
        forall|i: int| 0 <= i < s.len() ==> #[trigger] keep(s[i]),
    ensures
        s.filter(keep) == s,
    decreases s.len(),
{
    reveal(Seq::filter);
    if s.len() > 0 {
        let r = s.drop_last();
        assert forall|i: int| 0 <= i < r.len() implies #[trigger] keep(r[i]) by {
            assert(keep(s[i]));
        }
        lemma_filter_keeps_all(r, keep);
        assert(keep(s[s.len() - 1]));
        assert(r.push(s.last()) =~= s);
    }
}

/// Recording matches in time order keeps the window's matches in time
/// order.
pub proof fn lemma_record_keeps_time_order(s: WindowState, now: nat)
    requires
        nondecreasing(s.recorded),
        forall|i: int| 0 <= i < s.recorded.len() ==> #[trigger] s.recorded[i] <= now,
    ensures
        nondecreasing(s.recorded_at(now).recorded),
        forall|i: int|
            0 <= i < s.recorded_at(now).recorded.len() ==> #[trigger] s.recorded_at(
                now,
            ).recorded[i] <= now,
{
    lemma_pruned_is_suffix(s.recorded, now, s.window);
    let p = pruned(s.recorded, now, s.window);
    let k = s.recorded.len() - p.len();
    assert forall|i: int| 0 <= i < p.len() implies #[trigger] p[i] == s.recorded[i + k] by {}
    let q = p.push(now);
    assert forall|i: int, j: int| 0 <= i <= j < q.len() implies q[i] <= q[j] by {
        if j < p.len() {
            assert(p[i] == s.recorded[i + k] && p[j] == s.recorded[j + k]);
        } else if i < p.len() {
            assert(p[i] == s.recorded[i + k]);
        }
    }
    assert forall|i: int| 0 <= i < q.len() implies #[trigger] q[i] <= now by {
        if i < p.len() {
            assert(p[i] == s.recorded[i + k]);
        }
    }
}

/// Pruning drops a run from the front and keeps the rest as it was.
proof fn lemma_pruned_is_suffix(s: Seq<nat>, now: nat, window: nat)
    ensures
        pruned(s, now, window).len() <= s.len(),
        pruned(s, now, window) == s.skip(s.len() - pruned(s, now, window).len()),
    decreases s.len(),
{
    if s.len() > 0 && aged_out(s[0], now, window) {
        lemma_pruned_is_suffix(s.drop_first(), now, window);
        let p = pruned(s.drop_first(), now, window);
        assert(s.drop_first().skip(s.drop_first().len() - p.len()) =~= s.skip(s.len() - p.len()));
    } else {
        assert(s.skip(0) =~= s);
    }
}

/// A call on a window: a match recorded at an instant, or a count taken at
/// an instant.
pub enum WindowCall {
    Record(nat),
    Count(nat),
}

/// What a call on a window answers.
pub enum CallResult {
    Fired(bool),
    Counted(nat),
}

impl WindowCall {
    pub open spec fn time(self) -> nat {
        match self {
            WindowCall::Record(t) => t,
            WindowCall::Count(t) => t,
        }
    }
}

/// The state after each of `calls` in turn.
pub open spec fn after_calls(s: WindowState, calls: Seq<WindowCall>) -> WindowState
    decreases calls.len(),
{
    if calls.len() == 0 {
        s
    } else {
        let before = after_calls(s, calls.drop_last());
        match calls.last() {
            WindowCall::Record(t) => before.recorded_at(t),
            WindowCall::Count(t) => before.pruned_at(t),
        }
    }
}

/// What each of `calls` answers, made in turn.
pub open spec fn call_results(s: WindowState, calls: Seq<WindowCall>) -> Seq<CallResult>
    decreases calls.len(),
{
    if calls.len() == 0 {
        Seq::empty()
    } else {
        let before = after_calls(s, calls.drop_last());
        call_results(s, calls.drop_last()).push(
            match calls.last() {
                WindowCall::Record(t) => CallResult::Fired(before.fires_at(t)),
                WindowCall::Count(t) => CallResult::Counted(before.count_at(t)),
            },
        )
    }
}

/// The instants of the matches among `calls`.
pub open spec fn record_times(calls: Seq<WindowCall>) -> Seq<nat>
    decreases calls.len(),
{
    if calls.len() == 0 {
        Seq::empty()
    } else {
        let earlier = record_times(calls.drop_last());
        match calls.last() {
            WindowCall::Record(t) => earlier.push(t),
            WindowCall::Count(_) => earlier,
        }
    }
}

/// Pruning at one instant and then at a later one is pruning at the later.
proof fn lemma_pruned_twice(x: Seq<nat>, t1: nat, t2: nat, window: nat)
    requires
        t1 <= t2,
    ensures
        pruned(pruned(x, t1, window), t2, window) == pruned(x, t2, window),
    decreases x.len(),
{
    if x.len() > 0 && aged_out(x[0], t1, window) {
        lemma_pruned_twice(x.drop_first(), t1, t2, window);
    }
}

proof fn lemma_calls_keep_settings(s: WindowState, calls: Seq<WindowCall>)
    ensures
        after_calls(s, calls).window == s.window,
        after_calls(s, calls).threshold == s.threshold,
        after_all(s, record_times(calls)).window == s.window,
        after_all(s, record_times(calls)).threshold == s.threshold,
    decreases calls.len(),
{
    if calls.len() > 0 {
        lemma_calls_keep_settings(s, calls.drop_last());
        let rt = record_times(calls.drop_last());
        match calls.last() {
            WindowCall::Record(t) => {
                assert(rt.push(t).drop_last() =~= rt);
            },
            WindowCall::Count(_) => {},
        }
    }
}

/// Counting leaves what later calls see as it was: each call answers what
/// it would on a window that only ever saw the recorded matches.
proof fn lemma_calls_track_records(s: WindowState, calls: Seq<WindowCall>)
    requires
        forall|i: int, j: int|
            0 <= i <= j < calls.len() ==> (#[trigger] calls[i]).time() <= (
            #[trigger] calls[j]).time(),
    ensures
        forall|t: nat|
            (forall|i: int| 0 <= i < calls.len() ==> (#[trigger] calls[i]).time() <= t) ==> pruned(
                after_calls(s, calls).recorded,
                t,
                s.window,
            ) == pruned(after_all(s, record_times(calls)).recorded, t, s.window),
        call_results(s, calls).len() == calls.len(),
        forall|i: int|
            0 <= i < calls.len() ==> #[trigger] call_results(s, calls)[i] == match calls[i] {
                WindowCall::Record(t) => CallResult::Fired(
                    after_all(s, record_times(calls.take(i))).fires_at(t),
                ),
                WindowCall::Count(t) => CallResult::Counted(
                    after_all(s, record_times(calls.take(i))).count_at(t),
                ),
            },
    decreases calls.len(),
{
    if calls.len() > 0 {
        let c0 = calls.drop_last();
        let n = calls.len() - 1;
        assert forall|i: int, j: int| 0 <= i <= j < c0.len() implies (#[trigger] c0[i]).time()
            <= (#[trigger] c0[j]).time() by {
            assert(c0[i] == calls[i] && c0[j] == calls[j]);
        }
        lemma_calls_track_records(s, c0);
        lemma_calls_keep_settings(s, c0);
        let a0 = after_calls(s, c0);
        let b0 = after_all(s, record_times(c0));
        let t0 = calls.last().time();
        assert forall|i: int| 0 <= i < c0.len() implies (#[trigger] c0[i]).time() <= t0 by {
            assert(c0[i] == calls[i]);
            assert(calls[i].time() <= calls[n].time());
        }
        // At the last call's instant the two windows hold the same matches.
        assert(pruned(a0.recorded, t0, s.window) == pruned(b0.recorded, t0, s.window));
        assert(calls.take(n) =~= c0);
        match calls.last() {
            WindowCall::Record(t) => {
                assert(record_times(calls) == record_times(c0).push(t));
                assert(record_times(calls).drop_last() =~= record_times(c0));
                assert(after_all(s, record_times(calls)) == b0.recorded_at(t));
            },
            WindowCall::Count(t) => {
                assert(record_times(calls) == record_times(c0));
                assert forall|u: nat|
                    (forall|i: int| 0 <= i < calls.len() ==> (#[trigger] calls[i]).time() <= u)
                        implies pruned(after_calls(s, calls).recorded, u, s.window) == pruned(
                    after_all(s, record_times(calls)).recorded,
                    u,
                    s.window,
                ) by {
                    assert(calls[n].time() <= u);
                    lemma_pruned_twice(a0.recorded, t, u, s.window);
                    assert forall|i: int| 0 <= i < c0.len() implies (#[trigger] c0[i]).time()
                        <= u by {
                        assert(c0[i] == calls[i]);
                    }
                }
            },
        }
        assert forall|i: int| 0 <= i < calls.len() implies #[trigger] call_results(s, calls)[i]
            == match calls[i] {
            WindowCall::Record(t) => CallResult::Fired(
                after_all(s, record_times(calls.take(i))).fires_at(t),
            ),
            WindowCall::Count(t) => CallResult::Counted(
                after_all(s, record_times(calls.take(i))).count_at(t),
            ),
        } by {
            if i < n {
                assert(calls.take(i) =~= c0.take(i));
                assert(call_results(s, calls)[i] == call_results(s, c0)[i]);
                assert(calls[i] == c0[i]);
            }
        }
    }
}

/// Taking a count has no effect that any later call can see: when the calls
/// on a window come in time order, every record and every count answers
/// what it would on a window that saw only the recorded matches and no
/// counts.
pub proof fn lemma_counting_is_unobservable(s: WindowState, calls: Seq<WindowCall>)
    requires
        forall|i: int, j: int|
            0 <= i <= j < calls.len() ==> (#[trigger] calls[i]).time() <= (
            #[trigger] calls[j]).time(),
    ensures
        call_results(s, calls).len() == calls.len(),
        forall|i: int|
            0 <= i < calls.len() ==> #[trigger] call_results(s, calls)[i] == match calls[i] {
                WindowCall::Record(t) => CallResult::Fired(
                    after_all(s, record_times(calls.take(i))).fires_at(t),
                ),
                WindowCall::Count(t) => CallResult::Counted(
                    after_all(s, record_times(calls.take(i))).count_at(t),
                ),
            },
{
    lemma_calls_track_records(s, calls);
}

/// Pruning drops a run of aged-out matches from the front and nothing else:
/// what is kept is the rest, in order, and its first match, if any, has not
/// aged out.
pub proof fn lemma_pruning_drops_the_aged_out_front(s: Seq<nat>, now: nat, window: nat)
    ensures
        pruned(s, now, window).len() <= s.len(),
        pruned(s, now, window) == s.skip(s.len() - pruned(s, now, window).len()),
        forall|i: int|
            0 <= i < s.len() - pruned(s, now, window).len() ==> aged_out(
                #[trigger] s[i],
                now,
                window,
            ),
        pruned(s, now, window).len() > 0 ==> !aged_out(pruned(s, now, window)[0], now, window),
    decreases s.len(),
{
    lemma_pruned_is_suffix(s, now, window);
    if s.len() > 0 && aged_out(s[0], now, window) {
        let r = s.drop_first();
        lemma_pruning_drops_the_aged_out_front(r, now, window);
        let k = s.len() - pruned(s, now, window).len();
        assert forall|i: int| 0 <= i < k implies aged_out(#[trigger] s[i], now, window) by {
            if i > 0 {
                assert(s[i] == r[i - 1]);
            }
        }
    }
}

} // verus!
