//! The matching engines that this library drives: the literal automaton, the
//! regular-expression engine, the glob compiler, and the few std string
//! functions whose behaviour vstd leaves unstated.
use vstd::prelude::*;
use vstd::string::StringSliceAdditionalSpecFns;
use vstd::utf8::{encode_utf8, is_char_boundary, valid_utf8};

use aho_corasick::{AhoCorasick, AhoCorasickBuilder, BuildError};
use itertools::Itertools;

verus! {

#[verifier::external_type_specification]
#[verifier::external_body]
pub struct ExAhoCorasick(aho_corasick::AhoCorasick);

#[verifier::external_type_specification]
#[verifier::external_body]
pub struct ExBuildError(aho_corasick::BuildError);

#[verifier::external_type_specification]
#[verifier::external_body]
pub struct ExRegex(regex::Regex);

#[verifier::external_type_specification]
#[verifier::external_body]
pub struct ExRegexError(regex::Error);

#[verifier::external_type_specification]
#[verifier::external_body]
pub struct ExGlobSet(globset::GlobSet);

#[verifier::external_type_specification]
#[verifier::external_body]
pub struct ExGlobError(globset::Error);

// ---------------------------------------------------------------------------
// Literal matching
// ---------------------------------------------------------------------------

/// A byte folded to ASCII lower case.
pub open spec fn ascii_fold(b: u8) -> u8 {
    if 65 <= b && b <= 90 {
        (b + 32) as u8
    } else {
        b
    }
}

/// Whether `pat` occurs in `hay` at byte `i`, comparing bytes exactly or up
/// to ASCII case.
pub open spec fn occurs_at(hay: Seq<u8>, pat: Seq<u8>, i: int, case_sensitive: bool) -> bool {
    &&& 0 <= i
    &&& i + pat.len() <= hay.len()
    &&& forall|k: int|
        0 <= k < pat.len() ==> (if case_sensitive {
            #[trigger] hay[i + k] == pat[k]
        } else {
            ascii_fold(hay[i + k]) == ascii_fold(pat[k])
        })
}

/// The non-overlapping occurrences of a non-empty `pat` in `hay` at or after
/// `from`, found left to right, each search resuming where the last
/// occurrence ended.
pub open spec fn occurrences_from(hay: Seq<u8>, pat: Seq<u8>, case_sensitive: bool, from: int) -> Seq<
    (int, int),
>
    decreases hay.len() - from,
{
    if pat.len() == 0 || from < 0 || from + pat.len() > hay.len() {
        seq![]
    } else if occurs_at(hay, pat, from, case_sensitive) {
        seq![(from, from + pat.len())] + occurrences_from(
            hay,
            pat,
            case_sensitive,
            from + pat.len(),
        )
    } else {
        occurrences_from(hay, pat, case_sensitive, from + 1)
    }
}

/// A compiled literal matcher for one pattern, kept beside the pattern and
/// case setting it was built from.
#[derive(Debug)]
pub struct LiteralMatcher {
    engine: AhoCorasick,
    pattern: String,
    case_sensitive: bool,
}

/// The longest literal pattern, in bytes, that a literal matcher is built
/// for. The automaton for one pattern of `n` bytes needs a few hundred
/// entries plus at most a small multiple of `n` in each of its tables, far
/// below aho_corasick's state-identifier limit of about 2^31.
pub const LITERAL_LIMIT: usize = 16777216;

/// Relies on aho_corasick's `AhoCorasickBuilder::build` with the standard
/// match kind and an unanchored start; ASCII case is folded when asked. With
/// one pattern, building fails only when an internal table outgrows the
/// state-identifier limit, which a pattern of at most `LITERAL_LIMIT` bytes
/// cannot reach.
#[verifier::external_body]
fn build_automaton(pattern: &str, case_sensitive: bool) -> (r: Result<AhoCorasick, BuildError>)
    ensures
        encode_utf8(pattern@).len() <= LITERAL_LIMIT ==> r is Ok,
{
    AhoCorasickBuilder::new().ascii_case_insensitive(!case_sensitive).build([pattern])
}

impl LiteralMatcher {
    pub closed spec fn pattern(&self) -> Seq<char> {
        self.pattern@
    }

    pub closed spec fn is_case_sensitive(&self) -> bool {
        self.case_sensitive
    }

    pub fn new(pattern: &str, case_sensitive: bool) -> (r: LiteralMatcher)
        requires
            encode_utf8(pattern@).len() <= LITERAL_LIMIT,
        ensures
            r.pattern() == pattern@,
            r.is_case_sensitive() == case_sensitive,
    {
        let engine = build_automaton(pattern, case_sensitive).unwrap();
        LiteralMatcher { engine, pattern: pattern.to_string(), case_sensitive }
    }

    /// Relies on aho_corasick's `AhoCorasick::find_iter` under the standard
    /// match kind: with a single pattern, every match is the leftmost
    /// occurrence at or after the position where the previous match ended.
    #[verifier::external_body]
    pub(crate) fn find_all(&self, hay: &[u8]) -> (r: Vec<(usize, usize)>)
        requires
            self.pattern().len() > 0,
        ensures
            r@.map_values(|m: (usize, usize)| (m.0 as int, m.1 as int)) == occurrences_from(
                hay@,
                encode_utf8(self.pattern()),
                self.is_case_sensitive(),
                0,
            ),
    {
        self.engine.find_iter(hay).map(|m| (m.start(), m.end())).collect()
    }
}

// ---------------------------------------------------------------------------
// Regular expressions
// ---------------------------------------------------------------------------

/// Whether the regex crate accepts `pattern` with the given flags.
pub uninterp spec fn regex_compiles(pattern: Seq<char>, flags: (bool, bool)) -> bool;

/// The successive non-overlapping matches that the regex crate reports for
/// `pattern`, with the given flags, in the text whose UTF-8 encoding is
/// `hay`.
pub uninterp spec fn regex_find(pattern: Seq<char>, flags: (bool, bool), hay: Seq<u8>) -> Seq<
    (int, int),
>;

/// A compiled regular expression, kept beside the pattern and the flags
/// (case-insensitive, multi-line) that it was built from.
#[derive(Debug)]
pub struct CompiledRegex {
    engine: regex::Regex,
    pattern: String,
    case_insensitive: bool,
    multiline: bool,
}

/// Relies on regex's `RegexBuilder::build`: whether it succeeds
/// depends on the pattern and the flags alone. In multi-line mode `^`/`$`
/// match at line breaks and `.` matches a newline.
#[verifier::external_body]
fn build_regex(pattern: &str, case_insensitive: bool, multiline: bool) -> (r: Result<
    regex::Regex,
    regex::Error,
>)
    ensures
        r is Ok <==> regex_compiles(pattern@, (case_insensitive, multiline)),
{
    regex::RegexBuilder::new(pattern)
        .case_insensitive(case_insensitive)
        .multi_line(multiline)
        .dot_matches_new_line(multiline)
        .build()
}

impl CompiledRegex {
    pub closed spec fn pattern(&self) -> Seq<char> {
        self.pattern@
    }

    pub closed spec fn flags(&self) -> (bool, bool) {
        (self.case_insensitive, self.multiline)
    }

    pub fn new(pattern: &str, case_insensitive: bool, multiline: bool) -> (r: Result<
        CompiledRegex,
        regex::Error,
    >)
        ensures
            r is Ok <==> regex_compiles(pattern@, (case_insensitive, multiline)),
            r matches Ok(c) ==> c.pattern() == pattern@ && c.flags() == (
                case_insensitive,
                multiline,
            ),
    {
        match build_regex(pattern, case_insensitive, multiline) {
            Ok(engine) => Ok(
                CompiledRegex { engine, pattern: pattern.to_string(), case_insensitive, multiline },
            ),
            Err(e) => Err(e),
        }
    }

    /// Relies on regex's `Regex::find_iter`: the matches depend on the
    /// pattern, the flags and the haystack alone; they come in order, do not
    /// overlap, lie within the haystack, and start and end on character
    /// boundaries.
    #[verifier::external_body]
    pub(crate) fn find_all(&self, hay: &str) -> (r: Vec<(usize, usize)>)
        ensures
            r@.map_values(|m: (usize, usize)| (m.0 as int, m.1 as int)) == regex_find(
                self.pattern(),
                self.flags(),
                hay.spec_bytes(),
            ),
            forall|i: int|
                0 <= i < r@.len() ==> r@[i].0 <= r@[i].1 && r@[i].1 <= hay.spec_bytes().len()
                    && is_char_boundary(hay.spec_bytes(), r@[i].0 as int) && is_char_boundary(
                    hay.spec_bytes(),
                    r@[i].1 as int,
                ),
            forall|i: int| 0 <= i && i + 1 < r@.len() ==> r@[i].1 <= r@[i + 1].0,
    {
        self.engine.find_iter(hay).map(|m| (m.start(), m.end())).collect()
    }
}

/// Relies on std's `str::from_utf8`, which accepts every well-formed UTF-8
/// sequence and views it unchanged as a string.
#[verifier::external_body]
pub(crate) fn str_from_utf8(b: &[u8]) -> (r: Option<&str>)
    ensures
        valid_utf8(b@) ==> r is Some,
        r matches Some(s) ==> s.spec_bytes() == b@,
{
    std::str::from_utf8(b).ok()
}

// ---------------------------------------------------------------------------
// Globs and paths
// ---------------------------------------------------------------------------

/// Whether globset parses `pattern` as a glob.
pub uninterp spec fn glob_parses(pattern: Seq<char>) -> bool;

/// Whether globset builds a matcher for the glob `pattern`: it parses, and
/// the regular expression it translates to fits globset's size limit.
pub uninterp spec fn glob_compiles(pattern: Seq<char>) -> bool;

/// Whether the glob compiled from `pattern` matches `path`.
pub uninterp spec fn glob_matches(pattern: Seq<char>, path: Seq<char>) -> bool;

/// Whether `path` starts with `base`, compared as whole path components.
pub uninterp spec fn path_starts_with(path: Seq<char>, base: Seq<char>) -> bool;

/// Relies on globset's `Glob::new` and `GlobSetBuilder::build`, for a set
/// of this one glob. `Glob::new` only parses; `build` translates the glob to
/// a regular expression and reports one over globset's size limit as an
/// error. Its one call that can panic builds an Aho-Corasick automaton from
/// a literal taken from the glob, which cannot fail for a literal of at most
/// `LITERAL_LIMIT` bytes (see `build_automaton`).
#[verifier::external_body]
pub(crate) fn compile_glob(pattern: &str) -> (r: Result<globset::GlobSet, globset::Error>)
    requires
        encode_utf8(pattern@).len() <= LITERAL_LIMIT,
    ensures
        r is Ok ==> glob_parses(pattern@),
        r is Ok <==> glob_compiles(pattern@),
{
    let glob = globset::Glob::new(pattern)?;
    globset::GlobSetBuilder::new().add(glob).build()
}

/// Relies on std's `Path::starts_with`, which compares whole components; a
/// path starts with itself.
#[verifier::external_body]
pub(crate) fn path_has_prefix(path: &str, base: &str) -> (r: bool)
    ensures
        r == path_starts_with(path@, base@),
        path@ == base@ ==> r,
{
    std::path::Path::new(path).starts_with(base)
}

// ---------------------------------------------------------------------------
// Characters and strings
// ---------------------------------------------------------------------------

/// Whether `c` has the Unicode White_Space property: the 25 code points
/// U+0009..U+000D, U+0020, U+0085, U+00A0, U+1680, U+2000..U+200A, U+2028,
/// U+2029, U+202F, U+205F and U+3000.
pub open spec fn unicode_whitespace(c: char) -> bool {
    let u = c as u32;
    (0x9 <= u && u <= 0xd) || u == 0x20 || u == 0x85 || u == 0xa0 || u == 0x1680 || (0x2000 <= u
        && u <= 0x200a) || u == 0x2028 || u == 0x2029 || u == 0x202f || u == 0x205f || u == 0x3000
}

/// Whether `c` is Unicode alphabetic or numeric.
pub uninterp spec fn unicode_alphanumeric(c: char) -> bool;

/// Relies on std's `char::is_whitespace`.
#[verifier::external_body]
pub(crate) fn is_whitespace(c: char) -> (r: bool)
    ensures
        r == unicode_whitespace(c),
{
    c.is_whitespace()
}

/// Relies on std's `char::is_alphanumeric`: alphabetic or numeric. Among
/// ASCII characters exactly the letters and digits are.
#[verifier::external_body]
pub(crate) fn is_alphanumeric(c: char) -> (r: bool)
    ensures
        r == unicode_alphanumeric(c),
        (c as u32) < 128 ==> (r <==> (('a' <= c && c <= 'z') || ('A' <= c && c <= 'Z') || ('0' <= c
            && c <= '9'))),
{
    c.is_alphanumeric()
}

/// Relies on std's `Chars::next_back`: the last character, if any.
#[verifier::external_body]
pub(crate) fn last_char(s: &str) -> (r: Option<char>)
    ensures
        r == (if s@.len() == 0 {
            None
        } else {
            Some(s@.last())
        }),
{
    s.chars().next_back()
}

/// Relies on std's `Chars::next`: the first character, if any.
#[verifier::external_body]
pub(crate) fn first_char(s: &str) -> (r: Option<char>)
    ensures
        r == (if s@.len() == 0 {
            None
        } else {
            Some(s@[0])
        }),
{
    s.chars().next()
}

/// `s` without its leading and trailing whitespace.
pub open spec fn trim_spec(s: Seq<char>) -> Seq<char>
    decreases s.len(),
{
    if s.len() == 0 {
        s
    } else if unicode_whitespace(s[0]) {
        trim_spec(s.drop_first())
    } else if unicode_whitespace(s.last()) {
        trim_spec(s.drop_last())
    } else {
        s
    }
}

/// Relies on std's `str::trim`, which strips White_Space characters from
/// both ends.
#[verifier::external_body]
pub(crate) fn trim(s: &str) -> (r: String)
    ensures
        r@ == trim_spec(s@),
{
    s.trim().to_string()
}

/// The pieces of `s` between occurrences of `sep`; there is always at least
/// one piece.
pub open spec fn split_spec(s: Seq<char>, sep: char) -> Seq<Seq<char>>
    decreases s.len(),
{
    if s.len() == 0 {
        seq![Seq::<char>::empty()]
    } else {
        let rest = split_spec(s.drop_first(), sep);
        if s[0] == sep {
            seq![Seq::<char>::empty()] + rest
        } else {
            rest.update(0, seq![s[0]] + rest[0])
        }
    }
}

/// Relies on std's `str::split` with a character separator.
#[verifier::external_body]
pub(crate) fn split_on(s: &str, sep: char) -> (r: Vec<String>)
    ensures
        r@.map_values(|p: String| p@) == split_spec(s@, sep),
{
    s.split(sep).map(|p| p.to_string()).collect()
}

/// The pieces joined with `sep` between neighbours.
pub open spec fn join_spec(parts: Seq<Seq<char>>, sep: char) -> Seq<char>
    decreases parts.len(),
{
    if parts.len() == 0 {
        Seq::empty()
    } else if parts.len() == 1 {
        parts[0]
    } else {
        join_spec(parts.drop_last(), sep) + seq![sep] + parts.last()
    }
}

/// Relies on itertools' `Itertools::join`.
#[verifier::external_body]
pub(crate) fn join_with(parts: &Vec<String>, sep: &str) -> (r: String)
    ensures
        sep@.len() == 1 ==> r@ == join_spec(parts@.map_values(|p: String| p@), sep@[0]),
{
    parts.iter().join(sep)
}

} // verus!
