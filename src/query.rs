//! Compiled search queries: how they are built, how they travel over the
//! wire, which files they admit, and what they find.
use vstd::prelude::*;
use vstd::string::StringSliceAdditionalSpecFns;
use vstd::utf8::{encode_utf8, is_char_boundary, valid_utf8};

use std::ops::Range;

use crate::engines::{
    glob_compiles, join_spec, join_with, occurrences_from, regex_compiles, regex_find, split_on,
    split_spec, str_from_utf8, trim, trim_spec, CompiledRegex, LiteralMatcher, LITERAL_LIMIT,
};
use crate::path_matcher::PathMatcher;
use crate::scan::{lemma_boundary_byte, on_char_boundaries, detect_lines, reader_verdict, in_order, lemma_occurrences_in_order, pairs, line_hits, line_matches, ranges, select_matches, to_ranges, whole_words, LineScanner};
use crate::text::{concat_chunks, lemma_chunk_step, Rope};

verus! {

/// Why a query could not be built.
#[derive(Debug)]
pub enum QueryError {
    /// An entry of a path filter is not a glob that globset builds.
    InvalidGlob { glob: String, error: globset::Error },
    /// An entry of a path filter is longer than `LITERAL_LIMIT` bytes.
    GlobTooLong { glob: String },
    /// The pattern is not a valid regular expression.
    InvalidRegex(regex::Error),
    /// A literal query is longer than `LITERAL_LIMIT` bytes.
    QueryTooLong,
}

/// Why a stream could not be searched.
#[derive(Debug, PartialEq, Eq, Structural)]
pub enum StreamError {
    /// A regular expression met text that is not UTF-8.
    NotUtf8,
}

/// The query text as it was typed, with its path filters.
#[derive(Debug)]
pub struct SearchInputs {
    query: String,
    files_to_include: Vec<PathMatcher>,
    files_to_exclude: Vec<PathMatcher>,
}

impl SearchInputs {
    pub closed spec fn query(&self) -> Seq<char> {
        self.query@
    }

    pub closed spec fn includes(&self) -> Seq<PathMatcher> {
        self.files_to_include@
    }

    pub closed spec fn excludes(&self) -> Seq<PathMatcher> {
        self.files_to_exclude@
    }

    pub fn as_str(&self) -> (r: &str)
        ensures
            r@ == self.query(),
    {
        self.query.as_str()
    }

    pub fn files_to_include(&self) -> (r: &[PathMatcher])
        ensures
            r@ == self.includes(),
    {
        self.files_to_include.as_slice()
    }

    pub fn files_to_exclude(&self) -> (r: &[PathMatcher])
        ensures
            r@ == self.excludes(),
    {
        self.files_to_exclude.as_slice()
    }
}

/// A search request as it travels between peers.
#[derive(Clone, Debug, PartialEq, Eq)]
pub struct SearchProject {
    pub project_id: u64,
    pub query: String,
    pub regex: bool,
    pub whole_word: bool,
    pub case_sensitive: bool,
    pub files_to_include: String,
    pub files_to_exclude: String,
}

/// The pattern that a regular-expression query compiles: the query itself,
/// or the query between word boundaries.
pub open spec fn effective_pattern(query: Seq<char>, whole_word: bool) -> Seq<char> {
    if whole_word {
        seq!['\\', 'b'] + query + seq!['\\', 'b']
    } else {
        query
    }
}

/// Whether `p` holds a newline, or the escape `\n` for one.
pub open spec fn has_newline(p: Seq<char>) -> bool {
    exists|i: int| 0 <= i < p.len() && #[trigger] newline_at(p, i)
}

/// Whether a newline, or the escape `\n`, starts at `i` in `p`.
pub open spec fn newline_at(p: Seq<char>, i: int) -> bool {
    p[i] == '\n' || (p[i] == '\\' && i + 1 < p.len() && p[i + 1] == 'n')
}

/// The glob entries of a comma-separated list: each piece trimmed, empty
/// pieces left out.
pub open spec fn glob_list(s: Seq<char>) -> Seq<Seq<char>> {
    nonempty_trimmed(split_spec(s, ','))
}

pub open spec fn nonempty_trimmed(pieces: Seq<Seq<char>>) -> Seq<Seq<char>>
    decreases pieces.len(),
{
    if pieces.len() == 0 {
        Seq::empty()
    } else {
        let rest = nonempty_trimmed(pieces.drop_last());
        let t = trim_spec(pieces.last());
        if t.len() > 0 {
            rest.push(t)
        } else {
            rest
        }
    }
}

/// Whether a filter entry becomes a matcher: it is at most `LITERAL_LIMIT`
/// bytes long and globset builds it.
pub open spec fn glob_accepted(g: Seq<char>) -> bool {
    encode_utf8(g).len() <= LITERAL_LIMIT && glob_compiles(g)
}

/// Whether every entry becomes a matcher.
pub open spec fn all_accepted(globs: Seq<Seq<char>>) -> bool {
    forall|i: int| 0 <= i < globs.len() ==> glob_accepted(#[trigger] globs[i])
}

/// Whether `g` is the first entry of `globs` that does not become a matcher.
pub open spec fn first_rejected(globs: Seq<Seq<char>>, g: Seq<char>) -> bool {
    exists|k: int|
        0 <= k < globs.len() && globs[k] == g && !glob_accepted(g) && all_accepted(
            #[trigger] globs.take(k),
        )
}

/// Whether `e` names the first rejected entry of `globs`, as too long or as
/// not building.
pub open spec fn rejection_reported(globs: Seq<Seq<char>>, e: QueryError) -> bool {
    match e {
        QueryError::GlobTooLong { glob } => first_rejected(globs, glob@) && encode_utf8(glob@).len()
            > LITERAL_LIMIT,
        QueryError::InvalidGlob { glob, .. } => first_rejected(globs, glob@) && encode_utf8(
            glob@,
        ).len() <= LITERAL_LIMIT,
        _ => false,
    }
}

proof fn lemma_rejected(ps: Seq<Seq<char>>, k: int, t: Seq<char>)
    requires
        0 <= k < ps.len(),
        trim_spec(ps[k]) == t,
        t.len() > 0,
        all_accepted(nonempty_trimmed(ps.take(k))),
        !glob_accepted(t),
    ensures
        first_rejected(nonempty_trimmed(ps), t),
        !all_accepted(nonempty_trimmed(ps)),
{
    let done = nonempty_trimmed(ps.take(k));
    assert(ps.take(k + 1).drop_last() =~= ps.take(k));
    assert(ps.take(k + 1).last() == ps[k]);
    lemma_nonempty_trimmed_prefix(ps, k + 1);
    let all = nonempty_trimmed(ps);
    let d2 = nonempty_trimmed(ps.take(k + 1));
    assert(d2 == done.push(t));
    assert(all.take(d2.len() as int) == d2);
    assert(d2[done.len() as int] == t);
    assert(all.take(d2.len() as int)[done.len() as int] == all[done.len() as int]);
    assert(all[done.len() as int] == t);
    assert(all.take(done.len() as int) =~= done);
    assert(!glob_accepted(all[done.len() as int]));
}

/// The pattern texts of a list of matchers.
pub open spec fn sources(ms: Seq<PathMatcher>) -> Seq<Seq<char>> {
    ms.map_values(|m: PathMatcher| m.source())
}

/// Whether some matcher of `ms` accepts `path`.
pub open spec fn any_accepts(ms: Seq<PathMatcher>, path: Seq<char>) -> bool {
    exists|i: int| 0 <= i < ms.len() && #[trigger] ms[i].accepts(path)
}

/// Parses a comma-separated list of globs into matchers, in order, after
/// trimming each entry and leaving out empty ones. Fails on the first entry
/// that is too long or not a valid glob, naming it.
pub fn deserialize_path_matches(glob_set: &str) -> (r: Result<Vec<PathMatcher>, QueryError>)
    ensures
        r is Ok <==> all_accepted(glob_list(glob_set@)),
        r matches Ok(v) ==> sources(v@) == glob_list(glob_set@),
        r matches Err(e) ==> rejection_reported(glob_list(glob_set@), e),
{
    let pieces = split_on(glob_set, ',');
    let ghost ps = pieces@.map_values(|p: String| p@);
    let mut out: Vec<PathMatcher> = Vec::new();
    let mut k: usize = 0;
    while k < pieces.len()
        invariant
            k <= pieces@.len(),
            ps == pieces@.map_values(|p: String| p@),
            ps == split_spec(glob_set@, ','),
            sources(out@) == nonempty_trimmed(ps.take(k as int)),
            all_accepted(nonempty_trimmed(ps.take(k as int))),
        decreases pieces@.len() - k,
    {
        let t = trim(pieces[k].as_str());
        let ghost done = nonempty_trimmed(ps.take(k as int));
        proof {
            assert(ps.take(k + 1).drop_last() =~= ps.take(k as int));
            assert(ps.take(k + 1).last() == pieces@[k as int]@);
        }
        if !t.as_str().is_empty() {
            if t.as_str().as_bytes().len() > LITERAL_LIMIT {
                proof {
                    lemma_rejected(ps, k as int, t@);
                }
                return Err(QueryError::GlobTooLong { glob: t });
            }
            match PathMatcher::new(t.as_str()) {
                Ok(m) => {
                    let ghost prev = out@;
                    out.push(m);
                    proof {
                        assert(sources(out@) =~= sources(prev).push(t@));
                        let d2 = nonempty_trimmed(ps.take(k + 1));
                        assert(d2 == done.push(t@));
                        assert forall|i: int| 0 <= i < d2.len() implies glob_accepted(#[trigger] d2[i]) by {
                            if i < done.len() {
                                assert(d2[i] == done[i]);
                            }
                        }
                    }
                },
                Err(error) => {
                    proof {
                        lemma_rejected(ps, k as int, t@);
                    }
                    return Err(QueryError::InvalidGlob { glob: t, error });
                },
            }
        }
        k = k + 1;
    }
    proof {
        assert(ps.take(k as int) =~= ps);
    }
    Ok(out)
}

/// The entries kept from a prefix of the pieces begin the entries kept from
/// all of them.
pub proof fn lemma_nonempty_trimmed_prefix(ps: Seq<Seq<char>>, k: int)
    requires
        0 <= k <= ps.len(),
    ensures
        nonempty_trimmed(ps.take(k)).len() <= nonempty_trimmed(ps).len(),
        nonempty_trimmed(ps).take(nonempty_trimmed(ps.take(k)).len() as int) == nonempty_trimmed(
            ps.take(k),
        ),
    decreases ps.len(),
{
    if k == ps.len() {
        assert(ps.take(k) =~= ps);
        assert(nonempty_trimmed(ps).take(nonempty_trimmed(ps).len() as int) =~= nonempty_trimmed(
            ps,
        ));
    } else {
        let dl = ps.drop_last();
        lemma_nonempty_trimmed_prefix(dl, k);
        assert(ps.take(k) =~= dl.take(k));
        let a = nonempty_trimmed(dl);
        let n = nonempty_trimmed(dl.take(k)).len() as int;
        if trim_spec(ps.last()).len() > 0 {
            assert(a.push(trim_spec(ps.last())).take(n) =~= a.take(n));
        }
    }
}

/// A compiled query, literal or regular expression.
#[derive(Debug)]
pub enum SearchQuery {
    Text { search: LiteralMatcher, whole_word: bool, case_sensitive: bool, inner: SearchInputs },
    Regex {
        regex: CompiledRegex,
        multiline: bool,
        whole_word: bool,
        case_sensitive: bool,
        inner: SearchInputs,
    },
}

impl SearchQuery {
    pub open spec fn inner_spec(&self) -> SearchInputs {
        match self {
            SearchQuery::Text { inner, .. } => *inner,
            SearchQuery::Regex { inner, .. } => *inner,
        }
    }

    pub open spec fn query_text(&self) -> Seq<char> {
        self.inner_spec().query()
    }

    pub open spec fn whole_word_spec(&self) -> bool {
        match self {
            SearchQuery::Text { whole_word, .. } => *whole_word,
            SearchQuery::Regex { whole_word, .. } => *whole_word,
        }
    }

    /// Whether this is a multi-line regular-expression query.
    pub open spec fn is_multiline(&self) -> bool {
        match self {
            SearchQuery::Text { .. } => false,
            SearchQuery::Regex { multiline, .. } => *multiline,
        }
    }

    pub open spec fn case_sensitive_spec(&self) -> bool {
        match self {
            SearchQuery::Text { case_sensitive, .. } => *case_sensitive,
            SearchQuery::Regex { case_sensitive, .. } => *case_sensitive,
        }
    }

    /// The compiled engine agrees with the query's own fields.
    pub open spec fn wf(&self) -> bool {
        match self {
            SearchQuery::Text { search, case_sensitive, inner, .. } => search.pattern()
                == inner.query() && search.is_case_sensitive() == *case_sensitive,
            SearchQuery::Regex { regex, multiline, whole_word, case_sensitive, inner } => {
                &&& regex.pattern() == effective_pattern(inner.query(), *whole_word)
                &&& regex.flags() == (!*case_sensitive, *multiline)
                &&& *multiline == has_newline(regex.pattern())
            },
        }
    }

    /// The ranges that a search of the document `bytes` reports.
    pub open spec fn matches_in(&self, bytes: Seq<u8>) -> Seq<(int, int)> {
        if self.query_text().len() == 0 {
            Seq::empty()
        } else {
            match self {
                SearchQuery::Text { whole_word, case_sensitive, inner, .. } => {
                    let found = occurrences_from(
                        bytes,
                        encode_utf8(inner.query()),
                        *case_sensitive,
                        0,
                    );
                    if *whole_word {
                        whole_words(bytes, found)
                    } else {
                        found
                    }
                },
                SearchQuery::Regex { multiline, whole_word, case_sensitive, inner, .. } => {
                    let p = effective_pattern(inner.query(), *whole_word);
                    if *multiline {
                        line_hits(p, (!*case_sensitive, *multiline), bytes)
                    } else {
                        line_matches(p, (!*case_sensitive, *multiline), bytes)
                    }
                },
            }
        }
    }

    /// What a detection over a stream holding `bytes` reports: `Some(b)`
    /// for a verdict `b`, `None` for an error. A literal query looks for its
    /// text anywhere in the bytes, whole word or not. A multi-line regular
    /// expression needs the whole stream to be UTF-8. A single-line one reads
    /// line by line as a line reader does, and stops at the first line that
    /// matches or is not UTF-8.
    pub open spec fn detect_outcome(&self, bytes: Seq<u8>) -> Option<bool> {
        if self.query_text().len() == 0 {
            Some(false)
        } else {
            match self {
                SearchQuery::Text { case_sensitive, inner, .. } => Some(
                    occurrences_from(bytes, encode_utf8(inner.query()), *case_sensitive, 0).len()
                        > 0,
                ),
                SearchQuery::Regex { multiline, whole_word, case_sensitive, inner, .. } => {
                    let p = effective_pattern(inner.query(), *whole_word);
                    let f = (!*case_sensitive, *multiline);
                    if *multiline {
                        if valid_utf8(bytes) {
                            Some(regex_find(p, f, bytes).len() > 0)
                        } else {
                            None
                        }
                    } else {
                        match reader_verdict(p, f, bytes) {
                            Some(true) => Some(true),
                            Some(false) => None,
                            None => Some(false),
                        }
                    }
                },
            }
        }
    }

    /// Whether `path` passes the filters: no exclusion matcher accepts it,
    /// and there are no inclusion matchers or one of them accepts it. A
    /// buffer without a path passes only when there are no inclusion matchers.
    pub open spec fn admits(&self, path: Option<Seq<char>>) -> bool {
        let inner = self.inner_spec();
        match path {
            Some(p) => !any_accepts(inner.excludes(), p) && (inner.includes().len() == 0
                || any_accepts(inner.includes(), p)),
            None => inner.includes().len() == 0,
        }
    }

    /// A literal query. Any text is a valid literal query, the empty one
    /// included.
    pub fn text(
        query: &str,
        whole_word: bool,
        case_sensitive: bool,
        files_to_include: Vec<PathMatcher>,
        files_to_exclude: Vec<PathMatcher>,
    ) -> (r: SearchQuery)
        requires
            encode_utf8(query@).len() <= LITERAL_LIMIT,
        ensures
            r.wf(),
            r is Text,
            r.query_text() == query@,
            r.whole_word_spec() == whole_word,
            r.case_sensitive_spec() == case_sensitive,
            r.inner_spec().includes() == files_to_include@,
            r.inner_spec().excludes() == files_to_exclude@,
    {
        let search = LiteralMatcher::new(query, case_sensitive);
        let inner = SearchInputs { query: query.to_string(), files_to_include, files_to_exclude };
        SearchQuery::Text { search, whole_word, case_sensitive, inner }
    }

    /// A regular-expression query. With `whole_word` the pattern is put
    /// between word boundaries; the query text is kept as typed. The query
    /// is multi-line when the compiled pattern holds a newline or `\n`.
    pub fn regex(
        query: &str,
        whole_word: bool,
        case_sensitive: bool,
        files_to_include: Vec<PathMatcher>,
        files_to_exclude: Vec<PathMatcher>,
    ) -> (r: Result<SearchQuery, QueryError>)
        ensures
            r is Ok <==> regex_compiles(
                effective_pattern(query@, whole_word),
                (!case_sensitive, has_newline(effective_pattern(query@, whole_word))),
            ),
            r matches Ok(q) ==> {
                &&& q.wf()
                &&& q matches SearchQuery::Regex { multiline, .. } && multiline == has_newline(
                    effective_pattern(query@, whole_word),
                )
                &&& q.query_text() == query@
                &&& q.whole_word_spec() == whole_word
                &&& q.case_sensitive_spec() == case_sensitive
                &&& q.inner_spec().includes() == files_to_include@
                &&& q.inner_spec().excludes() == files_to_exclude@
            },
            r matches Err(e) ==> e is InvalidRegex,
    {
        let mut pattern = String::new();
        if whole_word {
            pattern.append("\\b");
            pattern.append(query);
            pattern.append("\\b");
            proof {
                reveal_strlit("\\b");
            }
        } else {
            pattern.append(query);
        }
        proof {
            assert(pattern@ =~= effective_pattern(query@, whole_word));
        }
        let multiline = contains_newline(pattern.as_str());
        match CompiledRegex::new(pattern.as_str(), !case_sensitive, multiline) {
            Ok(regex) => {
                let inner = SearchInputs {
                    query: query.to_string(),
                    files_to_include,
                    files_to_exclude,
                };
                Ok(SearchQuery::Regex { regex, multiline, whole_word, case_sensitive, inner })
            },
            Err(e) => Err(QueryError::InvalidRegex(e)),
        }
    }

    /// Builds a query from its wire form. Include entries are checked
    /// first, then exclusion entries, then the pattern.
    pub fn from_proto(message: SearchProject) -> (r: Result<SearchQuery, QueryError>)
        ensures
            !all_accepted(glob_list(message.files_to_include@)) ==> (r matches Err(e)
                && rejection_reported(glob_list(message.files_to_include@), e)),
            all_accepted(glob_list(message.files_to_include@)) && !all_accepted(
                glob_list(message.files_to_exclude@),
            ) ==> (r matches Err(e) && rejection_reported(glob_list(message.files_to_exclude@), e)),
            all_accepted(glob_list(message.files_to_include@)) && all_accepted(
                glob_list(message.files_to_exclude@),
            ) ==> {
                &&& message.regex ==> (r is Ok <==> regex_compiles(
                    effective_pattern(message.query@, message.whole_word),
                    (
                        !message.case_sensitive,
                        has_newline(effective_pattern(message.query@, message.whole_word)),
                    ),
                ))
                &&& message.regex && r is Err ==> (r matches Err(e) && e is InvalidRegex)
                &&& !message.regex ==> (r is Ok <==> encode_utf8(message.query@).len()
                    <= LITERAL_LIMIT)
                &&& !message.regex && r is Err ==> (r matches Err(e) && e is QueryTooLong)
            },
            r matches Ok(q) ==> {
                &&& q.wf()
                &&& (q is Regex) == message.regex
                &&& q.query_text() == message.query@
                &&& q.whole_word_spec() == message.whole_word
                &&& q.case_sensitive_spec() == message.case_sensitive
                &&& sources(q.inner_spec().includes()) == glob_list(message.files_to_include@)
                &&& sources(q.inner_spec().excludes()) == glob_list(message.files_to_exclude@)
            },
    {
        let included = match deserialize_path_matches(message.files_to_include.as_str()) {
            Ok(v) => v,
            Err(e) => return Err(e),
        };
        let excluded = match deserialize_path_matches(message.files_to_exclude.as_str()) {
            Ok(v) => v,
            Err(e) => return Err(e),
        };
        if message.regex {
            SearchQuery::regex(
                message.query.as_str(),
                message.whole_word,
                message.case_sensitive,
                included,
                excluded,
            )
        } else if message.query.as_str().as_bytes().len() > LITERAL_LIMIT {
            Err(QueryError::QueryTooLong)
        } else {
            Ok(
                SearchQuery::text(
                    message.query.as_str(),
                    message.whole_word,
                    message.case_sensitive,
                    included,
                    excluded,
                ),
            )
        }
    }

    /// The wire form of this query: its flags, its text as typed, and each
    /// filter list joined with commas.
    pub fn to_proto(&self, project_id: u64) -> (r: SearchProject)
        ensures
            r.project_id == project_id,
            r.query@ == self.query_text(),
            r.regex == self is Regex,
            r.whole_word == self.whole_word_spec(),
            r.case_sensitive == self.case_sensitive_spec(),
            r.files_to_include@ == join_spec(sources(self.inner_spec().includes()), ','),
            r.files_to_exclude@ == join_spec(sources(self.inner_spec().excludes()), ','),
    {
        let included = pattern_texts(self.files_to_include());
        let excluded = pattern_texts(self.files_to_exclude());
        proof {
            reveal_strlit(",");
        }
        SearchProject {
            project_id,
            query: self.as_str().to_string(),
            regex: self.is_regex(),
            whole_word: self.whole_word(),
            case_sensitive: self.case_sensitive(),
            files_to_include: join_with(&included, ","),
            files_to_exclude: join_with(&excluded, ","),
        }
    }

    pub fn as_inner(&self) -> (r: &SearchInputs)
        ensures
            *r == self.inner_spec(),
    {
        match self {
            SearchQuery::Regex { inner, .. } => inner,
            SearchQuery::Text { inner, .. } => inner,
        }
    }

    pub fn as_str(&self) -> (r: &str)
        ensures
            r@ == self.query_text(),
    {
        self.as_inner().as_str()
    }

    pub fn whole_word(&self) -> (r: bool)
        ensures
            r == self.whole_word_spec(),
    {
        match self {
            SearchQuery::Text { whole_word, .. } => *whole_word,
            SearchQuery::Regex { whole_word, .. } => *whole_word,
        }
    }

    pub fn case_sensitive(&self) -> (r: bool)
        ensures
            r == self.case_sensitive_spec(),
    {
        match self {
            SearchQuery::Text { case_sensitive, .. } => *case_sensitive,
            SearchQuery::Regex { case_sensitive, .. } => *case_sensitive,
        }
    }

    pub fn is_regex(&self) -> (r: bool)
        ensures
            r == self is Regex,
    {
        match self {
            SearchQuery::Regex { .. } => true,
            SearchQuery::Text { .. } => false,
        }
    }

    pub fn files_to_include(&self) -> (r: &[PathMatcher])
        ensures
            r@ == self.inner_spec().includes(),
    {
        self.as_inner().files_to_include()
    }

    pub fn files_to_exclude(&self) -> (r: &[PathMatcher])
        ensures
            r@ == self.inner_spec().excludes(),
    {
        self.as_inner().files_to_exclude()
    }

    /// Whether a file at `file_path` (or a buffer with no path) passes the
    /// inclusion and exclusion filters.
    pub fn file_matches(&self, file_path: Option<&str>) -> (r: bool)
        ensures
            r == self.admits(
                match file_path {
                    Some(p) => Some(p@),
                    None => None,
                },
            ),
    {
        match file_path {
            Some(p) => !any_match(self.files_to_exclude(), p) && (self.files_to_include().len()
                == 0 || any_match(self.files_to_include(), p)),
            None => self.files_to_include().len() == 0,
        }
    }
}

/// The matches of `regex` in each line of `rope`, scanned chunk by chunk.
pub fn scan_lines(regex: &CompiledRegex, rope: &Rope) -> (r: Vec<Range<usize>>)
    requires
        rope.wf(),
    ensures
        ranges(r@) == line_matches(regex.pattern(), regex.flags(), rope.bytes()),
        in_order(ranges(r@), rope.bytes().len() as int),
        on_char_boundaries(ranges(r@), rope.bytes()),
{
    let mut scanner = LineScanner::new(regex);
    let n = rope.chunk_count();
    let mut i: usize = 0;
    proof {
        rope.lemma_len_fits();
        assert(rope.chunks_spec().take(0) =~= Seq::<Seq<char>>::empty());
    }
    while i < n
        invariant
            scanner.wf(),
            scanner.runs(regex),
            i <= n,
            n == rope.chunks_spec().len(),
            rope.bytes().len() <= usize::MAX,
            scanner.seen() == encode_utf8(concat_chunks(rope.chunks_spec().take(i as int))),
        decreases n - i,
    {
        proof {
            lemma_chunk_step(rope.chunks_spec(), i as int);
        }
        let chunk = rope.chunk(i);
        scanner.feed(regex, chunk.as_bytes());
        i = i + 1;
    }
    proof {
        assert(rope.chunks_spec().take(n as int) =~= rope.chunks_spec());
    }
    let r = scanner.finish(regex);
    proof {
        let doc = rope.bytes();
        vstd::utf8::encode_utf8_valid_utf8(rope.chars());
        assert forall|i: int| 0 <= i < ranges(r@).len() implies is_char_boundary(
            doc,
            (#[trigger] ranges(r@)[i]).0,
        ) && is_char_boundary(doc, ranges(r@)[i].1) by {
            assert(ranges(r@)[i] == (r@[i].start as int, r@[i].end as int));
            lemma_boundary_byte(doc, r@[i].start as int);
            lemma_boundary_byte(doc, r@[i].end as int);
        }
    }
    r
}

impl SearchQuery {
    /// Every match of this query in `rope`, in order, as byte ranges. An
    /// empty query finds nothing. The ranges lie within the document, in
    /// order, without overlapping.
    pub fn search(&self, rope: &Rope) -> (r: Vec<Range<usize>>)
        requires
            self.wf(),
            rope.wf(),
        ensures
            ranges(r@) == self.matches_in(rope.bytes()),
            in_order(ranges(r@), rope.bytes().len() as int),
            self is Regex || self.whole_word_spec() ==> on_char_boundaries(
                ranges(r@),
                rope.bytes(),
            ),
    {
        if self.as_str().is_empty() {
            let r: Vec<Range<usize>> = Vec::new();
            assert(ranges(r@) =~= Seq::<(int, int)>::empty());
            proof {
                reveal(in_order);
            }
            return r;
        }
        match self {
            SearchQuery::Text { search, whole_word, .. } => {
                let text = rope.to_string();
                let raw = search.find_all(text.as_str().as_bytes());
                proof {
                    lemma_occurrences_in_order(
                        encode_utf8(text@),
                        encode_utf8(search.pattern()),
                        search.is_case_sensitive(),
                        0,
                    );
                    assert(pairs(raw@) =~= occurrences_from(
                        encode_utf8(text@),
                        encode_utf8(search.pattern()),
                        search.is_case_sensitive(),
                        0,
                    ));
                    assert(in_order(pairs(raw@), encode_utf8(text@).len() as int));
                }
                let t = text.as_str();
                let r = select_matches(t, &raw, *whole_word);
                assert(t.spec_bytes() == rope.bytes());
                r
            },
            SearchQuery::Regex { regex, multiline, .. } => {
                if *multiline {
                    let text = rope.to_string();
                    proof {
                        vstd::utf8::encode_utf8_valid_utf8(text@);
                    }
                    let raw = regex.find_all(text.as_str());
                    proof {
                        reveal(in_order);
                        assert forall|i: int| 0 <= i < pairs(raw@).len() implies pairs(raw@)[i] == (
                            raw@[i].0 as int,
                            raw@[i].1 as int,
                        ) by {}
                        assert(in_order(pairs(raw@), rope.bytes().len() as int));
                    }
                    let r = to_ranges(&raw);
                    assert(on_char_boundaries(pairs(raw@), rope.bytes()));
                    r
                } else {
                    scan_lines(regex, rope)
                }
            },
        }
    }

    /// Whether `bytes`, the whole content of a stream, holds a match. An
    /// empty query matches nothing. Regular expressions need UTF-8 text, read
    /// as `detect_outcome` says.
    pub fn detect(&self, bytes: &[u8]) -> (r: Result<bool, StreamError>)
        requires
            self.wf(),
        ensures
            r is Ok <==> self.detect_outcome(bytes@) is Some,
            r matches Ok(b) ==> self.detect_outcome(bytes@) == Some(b),
    {
        if self.as_str().is_empty() {
            return Ok(false);
        }
        match self {
            SearchQuery::Text { search, .. } => {
                let found = search.find_all(bytes);
                proof {
                    assert(pairs(found@).len() == found@.len());
                }
                Ok(found.len() > 0)
            },
            SearchQuery::Regex { regex, multiline, .. } => {
                if *multiline {
                    match str_from_utf8(bytes) {
                        Some(text) => {
                            proof {
                                vstd::utf8::encode_utf8_valid_utf8(text@);
                            }
                            let found = regex.find_all(text);
                            proof {
                                assert(pairs(found@).len() == found@.len());
                            }
                            Ok(found.len() > 0)
                        },
                        None => Err(StreamError::NotUtf8),
                    }
                } else {
                    match detect_lines(regex, bytes) {
                        Some(true) => Ok(true),
                        Some(false) => Err(StreamError::NotUtf8),
                        None => Ok(false),
                    }
                }
            },
        }
    }
}

fn any_match(ms: &[PathMatcher], path: &str) -> (r: bool)
    ensures
        r == any_accepts(ms@, path@),
{
    let mut i: usize = 0;
    while i < ms.len()
        invariant
            i <= ms@.len(),
            forall|j: int| 0 <= j < i ==> !(#[trigger] ms@[j]).accepts(path@),
        decreases ms@.len() - i,
    {
        if ms[i].is_match(path) {
            return true;
        }
        i = i + 1;
    }
    false
}

fn pattern_texts(ms: &[PathMatcher]) -> (r: Vec<String>)
    ensures
        r@.map_values(|p: String| p@) == sources(ms@),
{
    let mut out: Vec<String> = Vec::new();
    let mut i: usize = 0;
    while i < ms.len()
        invariant
            i <= ms@.len(),
            out@.len() == i,
            out@.map_values(|p: String| p@) == sources(ms@.take(i as int)),
        decreases ms@.len() - i,
    {
        let s = ms[i].to_string();
        let ghost prev = out@;
        out.push(s);
        proof {
            assert(out@ == prev.push(s));
            let a = out@.map_values(|p: String| p@);
            let b = sources(ms@.take(i + 1));
            assert forall|j: int| 0 <= j < i + 1 implies a[j] == b[j] by {
                if j < i {
                    assert(out@[j] == prev[j]);
                    assert(prev.map_values(|p: String| p@)[j] == sources(ms@.take(i as int))[j]);
                }
            }
            assert(a =~= b);
        }
        i = i + 1;
    }
    proof {
        assert(ms@.take(i as int) =~= ms@);
    }
    out
}

/// Whether `p` holds a newline or the escape `\n`.
pub fn contains_newline(p: &str) -> (r: bool)
    ensures
        r == has_newline(p@),
{
    let n = p.unicode_len();
    let mut i: usize = 0;
    while i < n
        invariant
            n == p@.len(),
            i <= n,
            forall|j: int| 0 <= j < i ==> !#[trigger] newline_at(p@, j),
        decreases n - i,
    {
        let c = p.get_char(i);
        if c == '\n' {
            assert(newline_at(p@, i as int));
            return true;
        }
        if c == '\\' && i + 1 < n && p.get_char(i + 1) == 'n' {
            assert(newline_at(p@, i as int));
            return true;
        }
        i = i + 1;
    }
    false
}

} // verus!
