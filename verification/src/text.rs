//! Character-level views of text: Unicode whitespace, trimming, ASCII
//! case folding, access to the characters of a string slice, and copies of
//! ranges of vectors.
use vstd::prelude::*;

verus! {

/// The characters with the Unicode `White_Space` property, which is what
/// `char::is_whitespace` and `str::trim` go by.
pub open spec fn is_space(c: char) -> bool {
    ||| '\u{9}' <= c <= '\u{d}'
    ||| c == ' '
    ||| c == '\u{85}'
    ||| c == '\u{a0}'
    ||| c == '\u{1680}'
    ||| '\u{2000}' <= c <= '\u{200a}'
    ||| c == '\u{2028}'
    ||| c == '\u{2029}'
    ||| c == '\u{202f}'
    ||| c == '\u{205f}'
    ||| c == '\u{3000}'
}

/// `s` without its leading whitespace.
pub open spec fn trim_start(s: Seq<char>) -> Seq<char>
    decreases s.len(),
{
    if s.len() > 0 && is_space(s[0]) {
        trim_start(s.drop_first())
    } else {
        s
    }
}

/// `s` without its trailing whitespace.
pub open spec fn trim_end(s: Seq<char>) -> Seq<char>
    decreases s.len(),
{
    if s.len() > 0 && is_space(s.last()) {
        trim_end(s.drop_last())
    } else {
        s
    }
}

/// `s` without leading and trailing whitespace, as `str::trim` gives it.
pub open spec fn trim(s: Seq<char>) -> Seq<char> {
    trim_start(trim_end(s))
}

/// ASCII upper-case letters mapped to lower case; every other character kept.
pub open spec fn lower_char(c: char) -> char {
    if 'A' <= c <= 'Z' {
        ((c as u32) + 32) as char
    } else {
        c
    }
}

/// `s` with ASCII letters in lower case, as `str::to_ascii_lowercase` gives it.
pub open spec fn ascii_lowercase(s: Seq<char>) -> Seq<char> {
    s.map_values(|c: char| lower_char(c))
}

/// Whether `c` is Unicode whitespace.
pub fn is_space_char(c: char) -> (b: bool)
    ensures
        b == is_space(c),
{
    ('\u{9}' <= c && c <= '\u{d}') || c == ' ' || c == '\u{85}' || c == '\u{a0}' || c
        == '\u{1680}' || ('\u{2000}' <= c && c <= '\u{200a}') || c == '\u{2028}' || c
        == '\u{2029}' || c == '\u{202f}' || c == '\u{205f}' || c == '\u{3000}'
}

/// The characters of `s`, in order.
pub fn chars_of(s: &str) -> (v: Vec<char>)
    ensures
        v@ == s@,
{
    let mut v: Vec<char> = Vec::new();
    for c in it: s.chars()
        invariant
            v@ == it.seq().take(it.index() as int),
    {
        v.push(c);
    }
    v
}

/// The bounds `(start, end)` of `v` trimmed of leading and trailing
/// whitespace: `v[start..end]` is `trim(v)`.
pub fn trim_bounds(v: &Vec<char>) -> (r: (usize, usize))
    ensures
        r.0 <= r.1 <= v@.len(),
        v@.subrange(r.0 as int, r.1 as int) == trim(v@),
{
    let mut end = v.len();
    assert(v@.take(end as int) =~= v@);
    while end > 0 && is_space_char(v[end - 1])
        invariant
            end <= v@.len(),
            trim_end(v@) == trim_end(v@.take(end as int)),
        decreases end,
    {
        assert(v@.take(end as int).drop_last() =~= v@.take(end - 1));
        end = end - 1;
    }
    assert(trim_end(v@.take(end as int)) == v@.take(end as int));
    let mut start: usize = 0;
    while start < end && is_space_char(v[start])
        invariant
            start <= end <= v@.len(),
            trim(v@) == trim_start(v@.subrange(start as int, end as int)),
        decreases end - start,
    {
        assert(v@.subrange(start as int, end as int).drop_first() =~= v@.subrange(
            start + 1,
            end as int,
        ));
        start = start + 1;
    }
    (start, end)
}

/// `c` with an ASCII upper-case letter mapped to lower case.
pub fn lower_char_of(c: char) -> (r: char)
    ensures
        r == lower_char(c),
{
    if 'A' <= c && c <= 'Z' {
        ((c as u8) + 32) as char
    } else {
        c
    }
}

/// `v[from..to]`, with ASCII letters in lower case.
pub fn lowercase_range(v: &Vec<char>, from: usize, to: usize) -> (r: Vec<char>)
    requires
        from <= to <= v@.len(),
    ensures
        r@ == ascii_lowercase(v@.subrange(from as int, to as int)),
{
    let mut r: Vec<char> = Vec::new();
    let mut i = from;
    while i < to
        invariant
            from <= i <= to <= v@.len(),
            r@ == ascii_lowercase(v@.subrange(from as int, i as int)),
        decreases to - i,
    {
        r.push(lower_char_of(v[i]));
        i = i + 1;
        assert(r@ =~= ascii_lowercase(v@.subrange(from as int, i as int)));
    }
    r
}

/// A copy of `v[from..to]`.
pub fn copy_range<T: Copy>(v: &Vec<T>, from: usize, to: usize) -> (r: Vec<T>)
    requires
        from <= to <= v@.len(),
    ensures
        r@ == v@.subrange(from as int, to as int),
{
    let mut r: Vec<T> = Vec::new();
    let mut i = from;
    while i < to
        invariant
            from <= i <= to <= v@.len(),
            r@ == v@.subrange(from as int, i as int),
        decreases to - i,
    {
        r.push(v[i]);
        i = i + 1;
        assert(r@ =~= v@.subrange(from as int, i as int));
    }
    r
}

/// Case folding keeps whitespace whitespace and everything else not.
pub proof fn lemma_lower_char_keeps_space(c: char)
    ensures
        is_space(lower_char(c)) == is_space(c),
        lower_char(lower_char(c)) == lower_char(c),
{
}

/// Case folding twice is case folding once.
pub proof fn lemma_lowercase_idempotent(s: Seq<char>)
    ensures
        ascii_lowercase(ascii_lowercase(s)) == ascii_lowercase(s),
{
    assert forall|i: int| 0 <= i < s.len() implies #[trigger] ascii_lowercase(
        ascii_lowercase(s),
    )[i] == ascii_lowercase(s)[i] by {
        lemma_lower_char_keeps_space(s[i]);
    }
    assert(ascii_lowercase(ascii_lowercase(s)) =~= ascii_lowercase(s));
}

/// Trimming and case folding can be done in either order.
pub proof fn lemma_trim_lowercase_commute(s: Seq<char>)
    ensures
        trim(ascii_lowercase(s)) == ascii_lowercase(trim(s)),
{
    lemma_trim_end_lowercase(s);
    lemma_trim_start_lowercase(trim_end(s));
}

proof fn lemma_trim_end_lowercase(s: Seq<char>)
    ensures
        trim_end(ascii_lowercase(s)) == ascii_lowercase(trim_end(s)),
    decreases s.len(),
{
    let l = ascii_lowercase(s);
    if s.len() > 0 {
        lemma_lower_char_keeps_space(s.last());
        assert(l.last() == lower_char(s.last()));
        assert(l.drop_last() =~= ascii_lowercase(s.drop_last()));
        lemma_trim_end_lowercase(s.drop_last());
    }
}

proof fn lemma_trim_start_lowercase(s: Seq<char>)
    ensures
        trim_start(ascii_lowercase(s)) == ascii_lowercase(trim_start(s)),
    decreases s.len(),
{
    let l = ascii_lowercase(s);
    if s.len() > 0 {
        lemma_lower_char_keeps_space(s[0]);
        assert(l[0] == lower_char(s[0]));
        assert(l.drop_first() =~= ascii_lowercase(s.drop_first()));
        lemma_trim_start_lowercase(s.drop_first());
    }
}

/// `s[a..b]` is `s` without its surrounding whitespace: everything outside
/// it is whitespace, and it neither starts nor ends with whitespace.
pub open spec fn trimmed_at(s: Seq<char>, a: int, b: int) -> bool {
    &&& 0 <= a <= b <= s.len()
    &&& forall|i: int| 0 <= i < a ==> is_space(#[trigger] s[i])
    &&& forall|i: int| b <= i < s.len() ==> is_space(#[trigger] s[i])
    &&& a < b ==> !is_space(s[a]) && !is_space(s[b - 1])
}

proof fn lemma_trim_end_at(s: Seq<char>, b: int)
    requires
        0 <= b <= s.len(),
        forall|i: int| b <= i < s.len() ==> is_space(#[trigger] s[i]),
        b == 0 || !is_space(s[b - 1]),
    ensures
        trim_end(s) == s.take(b),
    decreases s.len(),
{
    if s.len() > b {
        assert(is_space(s[s.len() - 1]));
        let t = s.drop_last();
        assert forall|i: int| b <= i < t.len() implies is_space(#[trigger] t[i]) by {
            assert(is_space(s[i]));
        }
        if b > 0 {
            assert(t[b - 1] == s[b - 1]);
        }
        lemma_trim_end_at(t, b);
        assert(t.take(b) =~= s.take(b));
    } else {
        assert(s.take(b) =~= s);
    }
}

proof fn lemma_trim_start_at(s: Seq<char>, a: int)
    requires
        0 <= a <= s.len(),
        forall|i: int| 0 <= i < a ==> is_space(#[trigger] s[i]),
        a == s.len() || !is_space(s[a]),
    ensures
        trim_start(s) == s.skip(a),
    decreases s.len(),
{
    if a > 0 {
        assert(is_space(s[0]));
        let t = s.drop_first();
        assert forall|i: int| 0 <= i < a - 1 implies is_space(#[trigger] t[i]) by {
            assert(is_space(s[i + 1]));
        }
        if a < s.len() {
            assert(t[a - 1] == s[a]);
        }
        lemma_trim_start_at(t, a - 1);
        assert(t.skip(a - 1) =~= s.skip(a));
    } else {
        assert(s.skip(0) =~= s);
    }
}

/// Trimming gives the part between the surrounding whitespace.
pub proof fn lemma_trim_at(s: Seq<char>, a: int, b: int)
    requires
        trimmed_at(s, a, b),
    ensures
        trim(s) == s.subrange(a, b),
{
    if a == b && b > 0 {
        // All of `s` is whitespace: trimming the end leaves nothing.
        assert(is_space(s[b - 1]));
        lemma_trim_end_at(s, 0);
        assert(trim_start(Seq::<char>::empty()) =~= s.subrange(a, b));
        assert(s.take(0) =~= Seq::<char>::empty());
    } else {
        lemma_trim_end_at(s, b);
        let t = s.take(b);
        assert forall|i: int| 0 <= i < a implies is_space(#[trigger] t[i]) by {
            assert(is_space(s[i]));
        }
        lemma_trim_start_at(t, a);
        assert(t.skip(a) =~= s.subrange(a, b));
    }
}

/// Every string has its trimmed part somewhere.
pub proof fn lemma_trimmed_somewhere(s: Seq<char>)
    ensures
        exists|a: int, b: int| trimmed_at(s, a, b),
    decreases s.len(),
{
    if s.len() == 0 {
        assert(trimmed_at(s, 0, 0));
    } else {
        let t = s.drop_first();
        lemma_trimmed_somewhere(t);
        let (a, b) = choose|a: int, b: int| trimmed_at(t, a, b);
        if is_space(s[0]) {
            if a < b {
                assert(trimmed_at(s, a + 1, b + 1)) by {
                    assert forall|i: int| 0 <= i < a + 1 implies is_space(#[trigger] s[i]) by {
                        if i > 0 {
                            assert(s[i] == t[i - 1]);
                        }
                    }
                    assert forall|i: int| b + 1 <= i < s.len() implies is_space(#[trigger] s[i]) by {
                        assert(s[i] == t[i - 1]);
                    }
                    assert(s[a + 1] == t[a]);
                    assert(s[b] == t[b - 1]);
                }
            } else {
                // `t` is all whitespace, and so is `s`.
                assert(trimmed_at(s, 0, 0)) by {
                    assert forall|i: int| 0 <= i < s.len() implies is_space(#[trigger] s[i]) by {
                        if i > 0 {
                            assert(s[i] == t[i - 1]);
                            if i - 1 >= b {
                            } else {
                                assert(i - 1 < a);
                            }
                        }
                    }
                }
            }
        } else {
            let b2 = if a < b {
                b + 1
            } else {
                1
            };
            assert(trimmed_at(s, 0, b2)) by {
                assert forall|i: int| b2 <= i < s.len() implies is_space(#[trigger] s[i]) by {
                    assert(s[i] == t[i - 1]);
                    if a == b {
                        if i - 1 >= b {
                        } else {
                            assert(i - 1 < a);
                        }
                    }
                }
                if a < b {
                    assert(s[b] == t[b - 1]);
                }
            }
        }
    }
}

} // verus!
