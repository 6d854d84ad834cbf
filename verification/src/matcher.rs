//! Compiles the user's pattern into something each tailed line can be tested
//! against: a regular expression from the `regex` crate, built from the
//! pattern as given, or from the pattern taken literally, and optionally
//! case-insensitive.
use vstd::prelude::*;

verus! {

/// `regex::Regex`, held opaque: a compiled regular expression.
#[verifier::external_type_specification]
#[verifier::external_body]
pub struct ExRegex(regex::Regex);

/// `regex::Error`, held opaque: why a pattern did not compile.
#[verifier::external_type_specification]
#[verifier::external_body]
pub struct ExRegexError(regex::Error);

/// Whether `regex::Regex::new` accepts `pattern`: the regex syntax, and the
/// crate's default size limits, decide it.
pub uninterp spec fn regex_compiles(pattern: Seq<char>) -> bool;

/// Whether the regex compiled from `pattern` matches anywhere in
/// `haystack`, as `regex::Regex::is_match` answers.
pub uninterp spec fn regex_matches(pattern: Seq<char>, haystack: Seq<char>) -> bool;

/// The characters that have a meaning in regex syntax.
pub open spec fn is_meta(c: char) -> bool {
    ||| c == '\\' || c == '.' || c == '+' || c == '*' || c == '?' || c == '('
    ||| c == ')' || c == '|' || c == '[' || c == ']' || c == '{' || c == '}'
    ||| c == '^' || c == '$' || c == '#' || c == '&' || c == '-' || c == '~'
}

/// `s` with a backslash put before each character that has a meaning in
/// regex syntax, so that the regex matches `s` literally.
pub open spec fn escaped(s: Seq<char>) -> Seq<char>
    decreases s.len(),
{
    if s.len() == 0 {
        Seq::empty()
    } else if is_meta(s.last()) {
        escaped(s.drop_last()) + seq!['\\', s.last()]
    } else {
        escaped(s.drop_last()) + seq![s.last()]
    }
}

/// The regex source a pattern is compiled from: the pattern itself, or,
/// with `literal`, the pattern escaped; with `ignore_case`, behind the
/// inline flag `(?i)`.
pub open spec fn compiled_source(pattern: Seq<char>, literal: bool, ignore_case: bool) -> Seq<
    char,
> {
    let body = if literal {
        escaped(pattern)
    } else {
        pattern
    };
    if ignore_case {
        seq!['(', '?', 'i', ')'] + body
    } else {
        body
    }
}

/// `regex::escape`: puts a backslash before every character for which
/// `regex_syntax::is_meta_character` holds (the eighteen of [`is_meta`]) and
/// keeps every other character.
#[verifier::external_body]
fn escape_pattern(pattern: &str) -> (r: String)
    ensures
        r@ == escaped(pattern@),
{
    regex::escape(pattern)
}

/// `regex::Regex::new` on `source`: it succeeds exactly when
/// [`regex_compiles`] holds of the source, and the matcher made from the
/// result keeps the source it was compiled from.
#[verifier::external_body]
fn compile(source: String) -> (r: Result<Matcher, regex::Error>)
    ensures
        r is Ok <==> regex_compiles(source@),
        r matches Ok(m) ==> m.source() == source@,
{
    match regex::Regex::new(&source) {
        Ok(re) => Ok(Matcher { re, source }),
        Err(e) => Err(e),
    }
}

/// `regex::Regex::is_match` on the matcher's regex: whether it matches
/// anywhere in `line`. A [`Matcher`] is only ever made by [`compile`], so its
/// regex is the one compiled from its source.
#[verifier::external_body]
fn regex_is_match(m: &Matcher, line: &str) -> (b: bool)
    ensures
        b == regex_matches(m.source(), line@),
{
    m.re.is_match(line)
}

/// A pattern that did not compile, and the regex crate's reason.
#[derive(Debug)]
pub struct PatternError {
    pub pattern: String,
    pub cause: regex::Error,
}

/// A compiled pattern, tested against each line.
pub struct Matcher {
    re: regex::Regex,
    source: String,
}

impl Matcher {
    /// The regex source this matcher was compiled from.
    pub closed spec fn source(&self) -> Seq<char> {
        self.source@
    }

    /// Compiles `pattern` as a regex. With `literal`, every regex
    /// metacharacter in it is escaped first, so that `[503]` matches the
    /// bracketed text rather than being a character class; `ignore_case`
    /// puts the inline flag `(?i)` in front. Fails, with the pattern and the
    /// regex crate's reason, exactly when that source does not compile.
    pub fn new(pattern: &str, literal: bool, ignore_case: bool) -> (r: Result<Matcher, PatternError>)
        ensures
            r is Ok <==> regex_compiles(compiled_source(pattern@, literal, ignore_case)),
            r matches Ok(m) ==> m.source() == compiled_source(pattern@, literal, ignore_case),
            r matches Err(e) ==> e.pattern@ == pattern@,
    {
        let body = if literal {
            escape_pattern(pattern)
        } else {
            pattern.to_owned()
        };
        let full = if ignore_case {
            let mut flagged = String::from_str("(?i)");
            proof {
                reveal_strlit("(?i)");
            }
            flagged.append(body.as_str());
            flagged
        } else {
            body
        };
        assert(full@ =~= compiled_source(pattern@, literal, ignore_case));
        match compile(full) {
            Ok(m) => Ok(m),
            Err(cause) => Err(PatternError { pattern: pattern.to_owned(), cause }),
        }
    }

    /// Whether the pattern matches anywhere in `line`.
    pub fn is_match(&self, line: &str) -> (b: bool)
        ensures
            b == regex_matches(self.source(), line@),
    {
        regex_is_match(self, line)
    }
}

/// The regex source is the pattern: as given outside literal mode, escaped in
/// literal mode, and with the inline flag `(?i)` in front, and nothing
/// else, when case is ignored.
pub proof fn lemma_source_is_the_pattern(p: Seq<char>, literal: bool)
    ensures
        compiled_source(p, false, false) == p,
        compiled_source(p, true, false) == escaped(p),
        compiled_source(p, literal, true) == seq!['(', '?', 'i', ')'] + compiled_source(
            p,
            literal,
            false,
        ),
        compiled_source(p, literal, true).len() == 4 + compiled_source(p, literal, false).len(),
{
}

/// Escaping works character by character: the empty string stays empty, a
/// metacharacter gets a backslash in front, any other character is kept,
/// and escaping two strings one after the other is escaping each.
pub proof fn lemma_escaping_is_per_character(a: Seq<char>, b: Seq<char>, c: char)
    ensures
        escaped(Seq::<char>::empty()) == Seq::<char>::empty(),
        escaped(seq![c]) == if is_meta(c) {
            seq!['\\', c]
        } else {
            seq![c]
        },
        escaped(a + b) == escaped(a) + escaped(b),
    decreases b.len(),
{
    assert(seq![c].drop_last() =~= Seq::<char>::empty());
    assert(Seq::<char>::empty() + seq!['\\', c] =~= seq!['\\', c]);
    assert(Seq::<char>::empty() + seq![c] =~= seq![c]);
    if b.len() == 0 {
        assert(a + b =~= a);
        assert(escaped(a) + escaped(b) =~= escaped(a));
    } else {
        let b0 = b.drop_last();
        lemma_escaping_is_per_character(a, b0, c);
        assert((a + b).drop_last() =~= a + b0);
        assert((a + b).last() == b.last());
        if is_meta(b.last()) {
            assert(escaped(a) + escaped(b0) + seq!['\\', b.last()] =~= escaped(a) + (escaped(b0)
                + seq!['\\', b.last()]));
        } else {
            assert(escaped(a) + escaped(b0) + seq![b.last()] =~= escaped(a) + (escaped(b0)
                + seq![b.last()]));
        }
    }
}

/// Text with no metacharacter escapes to itself.
pub proof fn lemma_plain_text_escapes_to_itself(s: Seq<char>)
    requires
        forall|i: int| 0 <= i < s.len() ==> !is_meta(#[trigger] s[i]),
    ensures
        escaped(s) == s,
    decreases s.len(),
{
    if s.len() > 0 {
        let s0 = s.drop_last();
        assert forall|i: int| 0 <= i < s0.len() implies !is_meta(#[trigger] s0[i]) by {
            assert(s0[i] == s[i]);
        }
        lemma_plain_text_escapes_to_itself(s0);
        assert(!is_meta(s[s.len() - 1]));
        assert(s0 + seq![s.last()] =~= s);
    }
}

} // verus!
