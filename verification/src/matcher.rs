//! Compiled search patterns: a regular expression of the `regex` crate
//! together with the pattern text and flags it was built from.
use vstd::prelude::*;

use crate::text::{byte_len, is_boundary};

verus! {

#[verifier::external_type_specification]
#[verifier::external_body]
pub struct ExRegex(regex::Regex);

/// Whether `regex` accepts `pattern` (with the given case-insensitivity and
/// Unicode mode on) and builds a regular expression from it.
pub uninterp spec fn regex_compiles(pattern: Seq<char>, ignore_case: bool) -> bool;

/// The text of the error that `regex` reports for a pattern it refuses.
pub uninterp spec fn regex_error_text(pattern: Seq<char>, ignore_case: bool) -> Seq<char>;

/// The byte spans, in order, of the successive non-overlapping matches that
/// the regular expression built from `pattern` finds in `haystack`.
pub uninterp spec fn regex_find_spans(
    pattern: Seq<char>,
    ignore_case: bool,
    haystack: Seq<char>,
) -> Seq<(usize, usize)>;

/// Spans as `regex` documents them for a `&str` haystack: each starts and
/// ends on a character boundary, none ends before it starts, and each
/// starts at or after the end of the one before.
pub open spec fn spans_well_formed(s: Seq<char>, spans: Seq<(usize, usize)>) -> bool {
    &&& forall|i: int|
        0 <= i < spans.len() ==> {
            &&& (#[trigger] spans[i]).0 <= spans[i].1 <= byte_len(s)
            &&& is_boundary(s, spans[i].0 as int)
            &&& is_boundary(s, spans[i].1 as int)
        }
    &&& forall|i: int, j: int| 0 <= i < j < spans.len() ==> #[trigger] spans[i].1 <= #[trigger] spans[j].0
}

/// Characters that `regex` treats as meta characters.
pub open spec fn is_meta_char(c: char) -> bool {
    c == '\\' || c == '.' || c == '+' || c == '*' || c == '?' || c == '(' || c == ')' || c == '|'
        || c == '[' || c == ']' || c == '{' || c == '}' || c == '^' || c == '$' || c == '#'
        || c == '&' || c == '-' || c == '~'
}

/// `s` with a backslash put before each meta character, so that it matches
/// itself literally.
pub open spec fn escaped(s: Seq<char>) -> Seq<char>
    decreases s.len(),
{
    if s.len() == 0 {
        seq![]
    } else {
        (if is_meta_char(s[0]) {
            seq!['\\', s[0]]
        } else {
            seq![s[0]]
        }) + escaped(s.drop_first())
    }
}

/// `regex::escape`: the text `s` with every meta character escaped.
#[verifier::external_body]
fn escape(s: &str) -> (r: String)
    ensures
        r@ == escaped(s@),
{
    regex::escape(s)
}

/// The pattern text that is compiled for a query: escaped where the query
/// is a fixed string.
pub open spec fn pattern_source(pattern: Seq<char>, fixed_string: bool) -> Seq<char> {
    if fixed_string {
        escaped(pattern)
    } else {
        pattern
    }
}

/// A compiled search pattern.
pub struct SearchPattern {
    re: regex::Regex,
    source: String,
    ignore_case: bool,
}

impl SearchPattern {
    /// The pattern text the regular expression was built from.
    pub closed spec fn source(&self) -> Seq<char> {
        self.source@
    }

    /// Whether the regular expression ignores case.
    pub closed spec fn ignores_case(&self) -> bool {
        self.ignore_case
    }

    /// `RegexBuilder::build` with case-insensitivity as given and Unicode
    /// mode on. The contract claims that the result is `Ok` exactly when
    /// `regex` accepts the pattern, and that the error text is the one
    /// `regex` gives for it.
    #[verifier::external_body]
    fn build(source: &str, ignore_case: bool) -> (r: Result<SearchPattern, String>)
        ensures
            r is Ok <==> regex_compiles(source@, ignore_case),
            r matches Ok(p) ==> p.source() == source@ && p.ignores_case() == ignore_case,
            r matches Err(e) ==> e@ == regex_error_text(source@, ignore_case),
    {
        match regex::RegexBuilder::new(source).case_insensitive(ignore_case).unicode(true).build() {
            Ok(re) => Ok(SearchPattern { re, source: source.to_string(), ignore_case }),
            Err(e) => Err(format!("{e}")),
        }
    }

    /// Compiles the query `pattern`; a fixed string is escaped first, so that
    /// it matches itself literally.
    pub fn new(pattern: &str, ignore_case: bool, fixed_string: bool) -> (r: Result<SearchPattern, String>)
        ensures
            r is Ok <==> regex_compiles(pattern_source(pattern@, fixed_string), ignore_case),
            r matches Ok(p) ==> p.source() == pattern_source(pattern@, fixed_string)
                && p.ignores_case() == ignore_case,
            r matches Err(e) ==> e@ == regex_error_text(pattern_source(pattern@, fixed_string), ignore_case),
    {
        if fixed_string {
            let quoted = escape(pattern);
            SearchPattern::build(quoted.as_str(), ignore_case)
        } else {
            SearchPattern::build(pattern, ignore_case)
        }
    }

    /// `Regex::find_iter`: the byte spans of the matches in `haystack`. The
    /// contract claims that they are the ones the pattern finds, in the
    /// documented shape.
    #[verifier::external_body]
    pub(crate) fn find_spans(&self, haystack: &str) -> (r: Vec<(usize, usize)>)
        ensures
            r@ == regex_find_spans(self.source(), self.ignores_case(), haystack@),
            spans_well_formed(haystack@, r@),
    {
        self.re.find_iter(haystack).map(|m| (m.start(), m.end())).collect()
    }

    /// `Regex::clone`: another handle on the same compiled pattern.
    #[verifier::external_body]
    fn duplicate(&self) -> (r: SearchPattern)
        ensures
            r.source() == self.source(),
            r.ignores_case() == self.ignores_case(),
    {
        SearchPattern { re: self.re.clone(), source: self.source.clone(), ignore_case: self.ignore_case }
    }
}

impl Clone for SearchPattern {
    fn clone(&self) -> (r: SearchPattern)
        ensures
            r.source() == self.source(),
            r.ignores_case() == self.ignores_case(),
    {
        self.duplicate()
    }
}


/// `s` with each backslash dropped and the character after it kept.
pub open spec fn unescaped(s: Seq<char>) -> Seq<char>
    decreases s.len(),
{
    if s.len() == 0 {
        seq![]
    } else if s[0] == '\\' && s.len() >= 2 {
        seq![s[1]] + unescaped(s.skip(2))
    } else {
        seq![s[0]] + unescaped(s.drop_first())
    }
}

/// Escaping loses nothing: dropping the added backslashes gives back the
/// fixed string.
pub proof fn law_escape_roundtrip(s: Seq<char>)
    ensures
        unescaped(escaped(s)) == s,
    decreases s.len(),
{
    if s.len() > 0 {
        law_escape_roundtrip(s.drop_first());
        let rest = escaped(s.drop_first());
        if is_meta_char(s[0]) {
            let e = seq!['\\', s[0]] + rest;
            assert(e.skip(2) =~= rest);
            assert(e[0] == '\\' && e[1] == s[0]);
        } else {
            let e = seq![s[0]] + rest;
            assert(e.drop_first() =~= rest);
            assert(e[0] == s[0]);
        }
        assert(seq![s[0]] + s.drop_first() =~= s);
    } else {
        assert(s =~= Seq::<char>::empty());
    }
}

} // verus!
