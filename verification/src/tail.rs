//! The line assembly of a `tail -f`: bytes read from the end of a growing
//! file come in as chunks, and whole lines (ended by `\n`, with any `\r`
//! before it dropped) come out. A trailing piece with no `\n` yet is held
//! back until a later chunk completes it. Reading the file is left to the
//! caller; this module keeps the read offset and the pending bytes.
use vstd::prelude::*;

use crate::text::copy_range;
use vstd::utf8::{decode_utf8, valid_utf8};

verus! {

/// The newline byte.
pub const NEWLINE: u8 = 10u8;

/// Splits `s` at each newline: the complete lines (without their newlines),
/// and the bytes after the last newline.
pub open spec fn split_lines(s: Seq<u8>) -> (Seq<Seq<u8>>, Seq<u8>)
    decreases s.len(),
{
    if s.len() == 0 {
        (Seq::empty(), Seq::empty())
    } else {
        let (lines, rest) = split_lines(s.drop_last());
        if s.last() == NEWLINE {
            (lines.push(rest), Seq::empty())
        } else {
            (lines, rest.push(s.last()))
        }
    }
}

/// What `String::from_utf8_lossy` makes of `bytes`: the text they encode,
/// with each invalid sequence replaced by U+FFFD.
pub uninterp spec fn lossy_utf8(bytes: Seq<u8>) -> Seq<char>;

/// `s` without the carriage returns at its end.
pub open spec fn trim_trailing_cr(s: Seq<char>) -> Seq<char>
    decreases s.len(),
{
    if s.len() > 0 && s.last() == '\r' {
        trim_trailing_cr(s.drop_last())
    } else {
        s
    }
}

/// The text of a line read as `bytes`.
pub open spec fn line_text(bytes: Seq<u8>) -> Seq<char> {
    trim_trailing_cr(lossy_utf8(bytes))
}

/// `String::from_utf8_lossy(bytes)`, owned: the text `bytes` encode, each
/// invalid sequence replaced by U+FFFD; valid UTF-8 is decoded as it is.
#[verifier::external_body]
fn decode_lossy(bytes: &[u8]) -> (s: String)
    ensures
        s@ == lossy_utf8(bytes@),
        valid_utf8(bytes@) ==> s@ == decode_utf8(bytes@),
{
    String::from_utf8_lossy(bytes).into_owned()
}

/// `s` without the carriage returns at its end, as
/// `str::trim_end_matches('\r')` gives it.
pub fn without_trailing_cr(s: &str) -> (r: String)
    ensures
        r@ == trim_trailing_cr(s@),
{
    let n = s.unicode_len();
    let mut end = n;
    assert(s@.take(end as int) =~= s@);
    while end > 0 && s.get_char(end - 1) == '\r'
        invariant
            end <= n == s@.len(),
            trim_trailing_cr(s@) == trim_trailing_cr(s@.take(end as int)),
        decreases end,
    {
        assert(s@.take(end as int).drop_last() =~= s@.take(end - 1));
        end = end - 1;
    }
    let kept = s.substring_char(0, end);
    assert(kept@ =~= s@.take(end as int));
    kept.to_owned()
}

/// What a [`TailBuffer`] holds: the file offset read up to, and the bytes
/// of the line still in progress.
pub struct TailState {
    pub offset: nat,
    pub pending: Seq<u8>,
}

/// What feeding `chunk` to a buffer in `state` gives: the new state, and the
/// texts of the lines it completes.
pub open spec fn fed(state: TailState, chunk: Seq<u8>) -> (TailState, Seq<Seq<char>>) {
    let (lines, rest) = split_lines(state.pending + chunk);
    (
        TailState { offset: state.offset + chunk.len(), pending: rest },
        lines.map_values(|l: Seq<u8>| line_text(l)),
    )
}

/// The read offset of a tailed file and the bytes of its unfinished last line.
pub struct TailBuffer {
    offset: u64,
    pending: Vec<u8>,
}

impl View for TailBuffer {
    type V = TailState;

    closed spec fn view(&self) -> TailState {
        TailState { offset: self.offset as nat, pending: self.pending@ }
    }
}

impl TailBuffer {
    #[verifier::type_invariant]
    spec fn no_newline_pending(self) -> bool {
        !self.pending@.contains(NEWLINE)
    }

    /// A buffer that reads on from `offset`, with nothing pending: offset
    /// zero replays a file from its start, its length watches only what is
    /// appended after.
    pub fn at_offset(offset: u64) -> (b: TailBuffer)
        ensures
            b@.offset == offset,
            b@.pending == Seq::<u8>::empty(),
    {
        let b = TailBuffer { offset, pending: Vec::new() };
        assert(!b.pending@.contains(NEWLINE));
        b
    }

    /// The file offset read up to.
    pub fn offset(&self) -> (n: u64)
        ensures
            n == self@.offset,
    {
        self.offset
    }

    /// Takes the bytes read next, `chunk`, and gives the lines they complete,
    /// each decoded (invalid UTF-8 replaced) and stripped of trailing `\r`.
    /// The bytes after the last newline are kept for the next call.
    pub fn feed(&mut self, chunk: &[u8]) -> (lines: Vec<String>)
        requires
            old(self)@.offset + chunk@.len() <= u64::MAX,
        ensures
            final(self)@ == fed(old(self)@, chunk@).0,
            lines@.map_values(|l: String| l@) == fed(old(self)@, chunk@).1,
            !final(self)@.pending.contains(NEWLINE),
            final(self)@.offset == old(self)@.offset + chunk@.len(),
            lines@.len() == split_lines(old(self)@.pending + chunk@).0.len(),
            forall|i: int|
                0 <= i < lines@.len() && valid_utf8(
                    split_lines(old(self)@.pending + chunk@).0[i],
                ) ==> #[trigger] lines@[i]@ == trim_trailing_cr(
                    decode_utf8(split_lines(old(self)@.pending + chunk@).0[i]),
                ),
    {
        proof {
            use_type_invariant(&*self);
        }
        let ghost start = self@;
        let mut buf: Vec<u8> = Vec::new();
        std::mem::swap(&mut buf, &mut self.pending);
        let mut k: usize = 0;
        while k < chunk.len()
            invariant
                k <= chunk@.len(),
                buf@ == start.pending + chunk@.take(k as int),
            decreases chunk@.len() - k,
        {
            buf.push(chunk[k]);
            k = k + 1;
            assert(buf@ =~= start.pending + chunk@.take(k as int));
        }
        assert(chunk@.take(chunk@.len() as int) =~= chunk@);
        let ghost all = buf@;
        let mut lines: Vec<String> = Vec::new();
        let ghost mut line_bytes: Seq<Seq<u8>> = Seq::empty();
        let mut line_start: usize = 0;
        let mut i: usize = 0;
        assert(all.take(0) =~= Seq::<u8>::empty());
        while i < buf.len()
            invariant
                buf@ == all,
                line_start <= i <= all.len(),
                split_lines(all.take(i as int)) == (line_bytes, all.subrange(
                    line_start as int,
                    i as int,
                )),
                lines@.map_values(|l: String| l@) == line_bytes.map_values(
                    |l: Seq<u8>| line_text(l),
                ),
                forall|j: int|
                    0 <= j < lines@.len() && valid_utf8(line_bytes[j]) ==> #[trigger] lines@[j]@
                        == trim_trailing_cr(decode_utf8(line_bytes[j])),
            decreases all.len() - i,
        {
            assert(all.take(i + 1).drop_last() =~= all.take(i as int));
            if buf[i] == NEWLINE {
                let bytes = copy_range(&buf, line_start, i);
                let text = decode_lossy(bytes.as_slice());
                let line = without_trailing_cr(text.as_str());
                assert(line@ == line_text(all.subrange(line_start as int, i as int)));
                let ghost before = lines@;
                lines.push(line);
                assert(lines@ == before.push(line));
                proof {
                    let old_bytes = line_bytes;
                    assert(before.map_values(|l: String| l@).len() == before.len());
                    assert(old_bytes.map_values(|l: Seq<u8>| line_text(l)).len() == old_bytes.len());
                    assert(before.len() == old_bytes.len());
                    line_bytes = line_bytes.push(all.subrange(line_start as int, i as int));
                    assert forall|j: int| 0 <= j < lines@.len() implies #[trigger] lines@[j]@
                        == line_text(line_bytes[j]) by {
                        if j < before.len() {
                            assert(before.map_values(|l: String| l@)[j] == old_bytes.map_values(
                                |l: Seq<u8>| line_text(l),
                            )[j]);
                            assert(line_bytes[j] == old_bytes[j]);
                        }
                    }
                    assert forall|j: int|
                        0 <= j < lines@.len() && valid_utf8(line_bytes[j]) implies #[trigger] lines@[j]@
                        == trim_trailing_cr(decode_utf8(line_bytes[j])) by {
                        if j < before.len() {
                            assert(lines@[j] == before[j]);
                            assert(line_bytes[j] == old_bytes[j]);
                        } else {
                            assert(line_bytes[j] == all.subrange(line_start as int, i as int));
                        }
                    }
                }
                line_start = i + 1;
                assert(lines@.map_values(|l: String| l@) =~= line_bytes.map_values(
                    |l: Seq<u8>| line_text(l),
                ));
                assert(all.subrange(line_start as int, i + 1) =~= Seq::<u8>::empty());
            } else {
                assert(all.subrange(line_start as int, i + 1) =~= all.subrange(
                    line_start as int,
                    i as int,
                ).push(all[i as int]));
            }
            i = i + 1;
        }
        assert(all.take(all.len() as int) =~= all);
        let rest = copy_range(&buf, line_start, buf.len());
        proof {
            lemma_split_rest_has_no_newline(all);
        }
        self.pending = rest;
        self.offset = self.offset + chunk.len() as u64;
        lines
    }
}

/// The bytes after the last newline hold no newline.
proof fn lemma_split_rest_has_no_newline(s: Seq<u8>)
    ensures
        !split_lines(s).1.contains(NEWLINE),
    decreases s.len(),
{
    if s.len() > 0 {
        lemma_split_rest_has_no_newline(s.drop_last());
        let rest = split_lines(s.drop_last()).1;
        if s.last() != NEWLINE {
            assert forall|i: int| 0 <= i < rest.push(s.last()).len() implies rest.push(
                s.last(),
            )[i] != NEWLINE by {
                if i < rest.len() {
                    assert(!rest.contains(NEWLINE));
                    assert(rest[i] != NEWLINE);
                }
            }
        }
    }
}

/// The lines `lines`, each followed by its newline, one after another.
pub open spec fn joined(lines: Seq<Seq<u8>>) -> Seq<u8>
    decreases lines.len(),
{
    if lines.len() == 0 {
        Seq::empty()
    } else {
        joined(lines.drop_last()) + lines.last().push(NEWLINE)
    }
}

/// Splitting at newlines loses and adds nothing: the lines, each with its
/// newline put back, followed by the unfinished rest, are the bytes that
/// came in; and no line holds a newline.
pub proof fn lemma_split_rejoins(s: Seq<u8>)
    ensures
        joined(split_lines(s).0) + split_lines(s).1 == s,
        forall|i: int|
            0 <= i < split_lines(s).0.len() ==> !(#[trigger] split_lines(s).0[i]).contains(
                NEWLINE,
            ),
    decreases s.len(),
{
    if s.len() == 0 {
        assert(joined(Seq::<Seq<u8>>::empty()) + Seq::<u8>::empty() =~= s);
    } else {
        let t = s.drop_last();
        lemma_split_rejoins(t);
        lemma_split_rest_has_no_newline(t);
        let (lines, rest) = split_lines(t);
        if s.last() == NEWLINE {
            assert(lines.push(rest).drop_last() =~= lines);
            assert(joined(lines.push(rest)) + Seq::<u8>::empty() =~= joined(lines) + rest.push(
                NEWLINE,
            ));
            assert(joined(lines) + rest.push(NEWLINE) =~= (joined(lines) + rest).push(NEWLINE));
            assert(t.push(s.last()) =~= s);
            assert forall|i: int| 0 <= i < lines.push(rest).len() implies !(
            #[trigger] lines.push(rest)[i]).contains(NEWLINE) by {
                if i < lines.len() {
                    assert(lines.push(rest)[i] == lines[i]);
                }
            }
        } else {
            assert(joined(lines) + rest.push(s.last()) =~= (joined(lines) + rest).push(s.last()));
            assert(t.push(s.last()) =~= s);
        }
    }
}

/// Splitting `s + t` is splitting `s`, then splitting its unfinished rest
/// followed by `t`.
proof fn lemma_split_concat(s: Seq<u8>, t: Seq<u8>)
    ensures
        split_lines(s + t) == (
            split_lines(s).0 + split_lines(split_lines(s).1 + t).0,
            split_lines(split_lines(s).1 + t).1,
        ),
    decreases t.len(),
{
    let (lines, rest) = split_lines(s);
    if t.len() == 0 {
        assert(s + t =~= s);
        assert(rest + t =~= rest);
        lemma_split_rest_has_no_newline(s);
        lemma_split_no_newline(rest);
        assert(lines + Seq::<Seq<u8>>::empty() =~= lines);
    } else {
        let t0 = t.drop_last();
        lemma_split_concat(s, t0);
        assert((s + t).drop_last() =~= s + t0);
        assert((rest + t).drop_last() =~= rest + t0);
        assert((s + t).last() == t.last());
        assert((rest + t).last() == t.last());
        let (l2, r2) = split_lines(rest + t0);
        if t.last() == NEWLINE {
            assert(lines + l2.push(r2) =~= (lines + l2).push(r2));
        }
    }
}

/// Bytes without a newline split into no lines and themselves.
proof fn lemma_split_no_newline(s: Seq<u8>)
    requires
        !s.contains(NEWLINE),
    ensures
        split_lines(s) == (Seq::<Seq<u8>>::empty(), s),
    decreases s.len(),
{
    if s.len() > 0 {
        let t = s.drop_last();
        assert(!t.contains(NEWLINE)) by {
            if t.contains(NEWLINE) {
                let i = choose|i: int| 0 <= i < t.len() && t[i] == NEWLINE;
                assert(s[i] == NEWLINE);
            }
        }
        lemma_split_no_newline(t);
        assert(s[s.len() - 1] != NEWLINE);
        assert(t.push(s.last()) =~= s);
    }
}

/// Where the chunks of a file break does not matter: feeding `a` and then
/// `b` gives the same lines, in the same order, and the same state as
/// feeding `a` followed by `b` at once. A line split across reads comes out
/// whole, once its newline has arrived.
pub proof fn lemma_feed_chunks_independent(state: TailState, a: Seq<u8>, b: Seq<u8>)
    ensures
        fed(fed(state, a).0, b).0 == fed(state, a + b).0,
        fed(state, a).1 + fed(fed(state, a).0, b).1 == fed(state, a + b).1,
{
    let p = state.pending;
    lemma_split_concat(p + a, b);
    assert(p + (a + b) =~= (p + a) + b);
    let first = split_lines(p + a);
    let second = split_lines(first.1 + b);
    assert((first.0 + second.0).map_values(|l: Seq<u8>| line_text(l)) =~= first.0.map_values(
        |l: Seq<u8>| line_text(l),
    ) + second.0.map_values(|l: Seq<u8>| line_text(l)));
    assert(state.offset + a.len() + b.len() == state.offset + (a + b).len());
}

/// A line's text loses only the carriage returns at its end: what is kept is
/// a prefix of the text, everything dropped is `\r`, and what is kept does
/// not itself end in `\r`.
pub proof fn lemma_only_trailing_returns_are_dropped(s: Seq<char>)
    ensures
        trim_trailing_cr(s).len() <= s.len(),
        trim_trailing_cr(s) == s.take(trim_trailing_cr(s).len() as int),
        forall|i: int| trim_trailing_cr(s).len() <= i < s.len() ==> #[trigger] s[i] == '\r',
        trim_trailing_cr(s).len() == 0 || trim_trailing_cr(s).last() != '\r',
    decreases s.len(),
{
    if s.len() > 0 && s.last() == '\r' {
        let s0 = s.drop_last();
        lemma_only_trailing_returns_are_dropped(s0);
        let r = trim_trailing_cr(s0);
        assert(s0.take(r.len() as int) =~= s.take(r.len() as int));
        assert forall|i: int| r.len() <= i < s.len() implies #[trigger] s[i] == '\r' by {
            if i < s0.len() {
                assert(s0[i] == s[i]);
            }
        }
    } else {
        assert(s.take(s.len() as int) =~= s);
    }
}

/// Feeding moves the read offset on by exactly the bytes fed, whether or not
/// they complete a line.
pub proof fn lemma_feed_advances_by_the_chunk(state: TailState, chunk: Seq<u8>)
    ensures
        fed(state, chunk).0.offset == state.offset + chunk.len(),
{
}

/// The joined lines end with a newline, when there are any.
proof fn lemma_joined_ends_in_newline(lines: Seq<Seq<u8>>)
    ensures
        joined(lines).len() >= lines.len(),
        lines.len() > 0 ==> joined(lines).last() == NEWLINE,
    decreases lines.len(),
{
    if lines.len() > 0 {
        lemma_joined_ends_in_newline(lines.drop_last());
    }
}

/// What is kept pending is exactly what follows the last newline of the
/// pending bytes and the chunk: a suffix of them with no newline in it,
/// right after a newline (or all of them, when there is none).
pub proof fn lemma_pending_is_after_the_last_newline(state: TailState, chunk: Seq<u8>)
    ensures
        ({
            let all = state.pending + chunk;
            let rest = fed(state, chunk).0.pending;
            &&& rest.len() <= all.len()
            &&& rest == all.skip(all.len() - rest.len())
            &&& !rest.contains(NEWLINE)
            &&& rest.len() < all.len() ==> all[all.len() - rest.len() - 1] == NEWLINE
        }),
{
    let all = state.pending + chunk;
    lemma_split_rejoins(all);
    lemma_split_rest_has_no_newline(all);
    let (lines, rest) = split_lines(all);
    lemma_joined_ends_in_newline(lines);
    let j = joined(lines);
    assert(all == j + rest);
    assert(all.skip(all.len() - rest.len()) =~= rest);
    if rest.len() < all.len() {
        assert(j.len() > 0);
        if lines.len() == 0 {
            assert(j =~= Seq::<u8>::empty());
        }
        assert(all[all.len() - rest.len() - 1] == j[j.len() - 1]);
    }
}

} // verus!
