use project_search::path_matcher::PathMatcher;
use project_search::query::{
    deserialize_path_matches, QueryError, SearchProject, SearchQuery, StreamError,
};
use project_search::text::{char_kind, CharKind, Rope};
use std::ops::Range;

const NONE: Vec<Range<usize>> = Vec::new();

fn rope(chunks: &[&str]) -> Rope {
    let mut r = Rope::new();
    for c in chunks {
        r.push_chunk(c);
    }
    r
}

fn globs(patterns: &[&str]) -> Vec<PathMatcher> {
    patterns.iter().map(|p| PathMatcher::new(p).unwrap()).collect()
}

fn text_query(q: &str, whole_word: bool, case_sensitive: bool) -> SearchQuery {
    SearchQuery::text(q, whole_word, case_sensitive, Vec::new(), Vec::new())
}

fn regex_query(q: &str, whole_word: bool, case_sensitive: bool) -> SearchQuery {
    SearchQuery::regex(q, whole_word, case_sensitive, Vec::new(), Vec::new()).unwrap()
}

#[test]
fn path_matcher_creation_for_valid_paths() {
    for valid_path in [
        "file",
        "Cargo.toml",
        ".DS_Store",
        "~/dir/another_dir/",
        "./dir/file",
        "dir/[a-z].txt",
        "../dir/filé",
    ] {
        let path_matcher = PathMatcher::new(valid_path).unwrap_or_else(|e| {
            panic!("Valid path {valid_path} should be accepted, but got: {e}")
        });
        assert!(
            path_matcher.is_match(valid_path),
            "Path matcher for valid path {valid_path} should match itself"
        )
    }
}

#[test]
fn path_matcher_creation_for_globs() {
    for invalid_glob in ["dir/[].txt", "dir/[a-z.txt", "dir/{file"] {
        match PathMatcher::new(invalid_glob) {
            Ok(_) => panic!("Invalid glob {invalid_glob} should not be accepted"),
            Err(_expected) => {}
        }
    }

    for valid_glob in [
        "dir/?ile",
        "dir/*.txt",
        "dir/**/file",
        "dir/[a-z].txt",
        "{dir,file}",
    ] {
        match PathMatcher::new(valid_glob) {
            Ok(_expected) => {}
            Err(e) => panic!("Valid glob {valid_glob} should be accepted, but got: {e}"),
        }
    }
}

#[test]
fn single_occurrence_is_reported_once() {
    let q = text_query("world", false, true);
    assert_eq!(q.search(&rope(&["hello world!"])), vec![6..11]);
}

#[test]
fn whole_word_literal_skips_word_inside_word() {
    let q = text_query("cat", true, true);
    assert_eq!(q.search(&rope(&["cat catalog cat"])), vec![0..3, 12..15]);
}

#[test]
fn literal_without_whole_word_finds_all() {
    let q = text_query("cat", false, true);
    assert_eq!(q.search(&rope(&["cat catalog cat"])), vec![0..3, 4..7, 12..15]);
}

#[test]
fn literal_matches_do_not_overlap() {
    let q = text_query("aa", false, true);
    assert_eq!(q.search(&rope(&["aaaaa"])), vec![0..2, 2..4]);
}

#[test]
fn literal_case_insensitive() {
    let q = text_query("hello", false, false);
    assert_eq!(q.search(&rope(&["Hello HELLO hello"])), vec![0..5, 6..11, 12..17]);
    let q = text_query("hello", false, true);
    assert_eq!(q.search(&rope(&["Hello HELLO hello"])), vec![12..17]);
}

#[test]
fn literal_offsets_are_bytes() {
    let q = text_query("wörld", false, true);
    assert_eq!(q.search(&rope(&["héllo ", "wörld"])), vec![7..13]);
}

#[test]
fn whole_word_with_non_ascii_neighbours() {
    let q = text_query("cat", true, true);
    assert_eq!(q.search(&rope(&["écat cat"])), vec![6..9]);
    assert_eq!(q.search(&rope(&["(cat)"])), vec![1..4]);
}

#[test]
fn whole_word_punctuation_query() {
    let q = text_query("::", true, true);
    assert_eq!(q.search(&rope(&["a::b a:::b"])), vec![1..3]);
}

#[test]
fn literal_across_chunk_boundary() {
    let q = text_query("world", false, true);
    assert_eq!(q.search(&rope(&["hello wo", "rld"])), vec![6..11]);
}

#[test]
fn empty_query_finds_nothing() {
    let q = text_query("", false, true);
    assert_eq!(q.search(&rope(&["anything"])), NONE);
    assert!(!q.detect(b"anything").unwrap());
    let q = regex_query("", false, true);
    assert_eq!(q.search(&rope(&["anything"])), NONE);
    assert!(!q.detect(b"anything").unwrap());
}

#[test]
fn regex_single_line_chunking_does_not_matter() {
    let q = regex_query("a.c", false, true);
    let expected = vec![0..3, 5..8, 9..12];
    assert_eq!(q.search(&rope(&["abc\nxabc\nabc"])), expected);
    assert_eq!(q.search(&rope(&["ab", "c\nxa", "bc\n", "abc"])), expected);
    assert_eq!(q.search(&rope(&["abc\n", "xabc\n", "abc"])), expected);
    assert_eq!(q.search(&rope(&["a", "b", "c", "\n", "x", "a", "b", "c", "\n", "a", "b", "c"])), expected);
}

#[test]
fn regex_single_line_does_not_cross_lines() {
    let q = regex_query("b.c", false, true);
    assert_eq!(q.search(&rope(&["ab\ncd"])), NONE);
    let q = regex_query("^b", false, true);
    assert_eq!(q.search(&rope(&["a\nb"])), vec![2..3]);
}

#[test]
fn regex_last_line_after_trailing_newline() {
    let q = regex_query("^$", false, true);
    assert_eq!(q.search(&rope(&["a\n"])), vec![2..2]);
}

#[test]
fn regex_multiline_spans_lines() {
    let q = regex_query("a\\nb", false, true);
    assert_eq!(q.search(&rope(&["xa", "\nb"])), vec![1..4]);
}

#[test]
fn regex_whole_word_wraps_pattern() {
    let q = regex_query("cat", true, true);
    assert_eq!(q.as_str(), "cat");
    assert_eq!(q.search(&rope(&["cat catalog"])), vec![0..3]);
}

#[test]
fn regex_case_insensitive() {
    let q = regex_query("abc", false, false);
    assert_eq!(q.search(&rope(&["ABC abc"])), vec![0..3, 4..7]);
}

#[test]
fn multiline_is_detected() {
    let q = regex_query("a\nb", false, true);
    assert!(matches!(q, SearchQuery::Regex { multiline: true, .. }));
    let q = regex_query("a\\nb", false, true);
    assert!(matches!(q, SearchQuery::Regex { multiline: true, .. }));
    let q = regex_query("ab", false, true);
    assert!(matches!(q, SearchQuery::Regex { multiline: false, .. }));
    let q = regex_query("nb", true, true);
    assert!(matches!(q, SearchQuery::Regex { multiline: false, .. }));
    let q = regex_query("a\\nb", true, true);
    assert!(matches!(q, SearchQuery::Regex { multiline: true, .. }));
}

#[test]
fn invalid_regex_is_refused() {
    let r = SearchQuery::regex("a(", false, true, Vec::new(), Vec::new());
    assert!(matches!(r, Err(QueryError::InvalidRegex(_))));
}

#[test]
fn unterminated_class_is_a_glob_error() {
    assert!(PathMatcher::new("dir/[a-z.txt").is_err());
    let m = PathMatcher::new("dir/[a-z].txt").unwrap();
    assert!(m.is_match("dir/a.txt"));
    assert!(!m.is_match("dir/A.txt"));
}

#[test]
fn path_prefix_matches_whole_components() {
    let m = PathMatcher::new("dir").unwrap();
    assert!(m.is_match("dir/sub/file.rs"));
    assert!(!m.is_match("directory/file.rs"));
}

#[test]
fn file_matches_filters() {
    let q = SearchQuery::text("x", false, true, globs(&["*.rs"]), globs(&["target/*"]));
    assert!(!q.file_matches(Some("target/debug/x.rs")));
    assert!(q.file_matches(Some("src/x.rs")));
    assert!(!q.file_matches(Some("src/x.txt")));
    assert!(!q.file_matches(None));
    let q = SearchQuery::text("x", false, true, Vec::new(), globs(&["target/*"]));
    assert!(q.file_matches(None));
    assert!(q.file_matches(Some("src/x.txt")));
}

#[test]
fn wire_round_trip() {
    let q = SearchQuery::regex("fo+", true, false, globs(&["*.rs", "src/**"]), globs(&["target"]))
        .unwrap();
    let p = q.to_proto(7);
    assert_eq!(p.project_id, 7);
    assert_eq!(p.query, "fo+");
    assert!(p.regex && p.whole_word && !p.case_sensitive);
    assert_eq!(p.files_to_include, "*.rs,src/**");
    assert_eq!(p.files_to_exclude, "target");
    let back = SearchQuery::from_proto(p).unwrap();
    assert!(back.is_regex());
    assert!(back.whole_word());
    assert!(!back.case_sensitive());
    assert_eq!(back.as_str(), "fo+");
    let inc: Vec<&str> = back.files_to_include().iter().map(|m| m.as_str()).collect();
    let exc: Vec<&str> = back.files_to_exclude().iter().map(|m| m.as_str()).collect();
    assert_eq!(inc, vec!["*.rs", "src/**"]);
    assert_eq!(exc, vec!["target"]);
}

#[test]
fn from_proto_text_query() {
    let p = SearchProject {
        project_id: 1,
        query: "needle".to_string(),
        regex: false,
        whole_word: false,
        case_sensitive: true,
        files_to_include: String::new(),
        files_to_exclude: String::new(),
    };
    let q = SearchQuery::from_proto(p).unwrap();
    assert!(!q.is_regex());
    assert!(q.files_to_include().is_empty());
    assert_eq!(q.search(&rope(&["a needle"])), vec![2..8]);
}

#[test]
fn from_proto_names_bad_glob() {
    let p = SearchProject {
        project_id: 1,
        query: "x".to_string(),
        regex: false,
        whole_word: false,
        case_sensitive: true,
        files_to_include: "ok, dir/[a-z.txt ,also[".to_string(),
        files_to_exclude: String::new(),
    };
    match SearchQuery::from_proto(p) {
        Err(QueryError::InvalidGlob { glob, .. }) => assert_eq!(glob, "dir/[a-z.txt"),
        other => panic!("unexpected {other:?}"),
    }
}

#[test]
fn deserialize_trims_and_drops_empty() {
    let v = deserialize_path_matches(" a , ,b ,").unwrap();
    let names: Vec<&str> = v.iter().map(|m| m.as_str()).collect();
    assert_eq!(names, vec!["a", "b"]);
    assert!(deserialize_path_matches("").unwrap().is_empty());
}

#[test]
fn detect_literal_and_regex() {
    let q = text_query("cat", true, true);
    assert!(q.detect(b"catalog").unwrap());
    assert!(!q.detect(b"dog").unwrap());
    let q = regex_query("^b", false, true);
    assert!(q.detect(b"a\nb").unwrap());
    assert!(!q.detect(b"ab").unwrap());
    let q = regex_query("a\\nb", false, true);
    assert!(q.detect(b"xa\nb").unwrap());
    assert!(!q.detect(b"ab").unwrap());
}

#[test]
fn char_kinds() {
    assert_eq!(char_kind('a'), CharKind::Word);
    assert_eq!(char_kind('_'), CharKind::Word);
    assert_eq!(char_kind('é'), CharKind::Word);
    assert_eq!(char_kind('7'), CharKind::Word);
    assert_eq!(char_kind(' '), CharKind::Whitespace);
    assert_eq!(char_kind('\u{a0}'), CharKind::Whitespace);
    assert_eq!(char_kind('.'), CharKind::Punctuation);
    assert_eq!(char_kind('\u{3000}'), CharKind::Whitespace);
    assert_eq!(char_kind('\u{200b}'), CharKind::Punctuation);
}

#[test]
fn rope_reports_its_length_and_text() {
    let r = rope(&["hé", "llo"]);
    assert_eq!(r.len(), 6);
    assert_eq!(r.chunk_count(), 2);
    assert_eq!(r.to_string(), "héllo");
}

#[test]
fn text_accepts_any_query() {
    let q = SearchQuery::text("(", false, false, Vec::new(), Vec::new());
    assert!(!q.is_regex());
    assert_eq!(q.as_str(), "(");
    assert_eq!(q.search(&rope(&["a(b"])), vec![1..2]);
    let q = SearchQuery::text("", true, true, Vec::new(), Vec::new());
    assert_eq!(q.as_str(), "");
    assert!(q.whole_word());
}

#[test]
fn literal_folds_ascii_case_only() {
    assert!(text_query("cat", false, false).detect(b"A CAT").unwrap());
    assert!(!text_query("\u{e9}", false, false).detect("\u{c9}".as_bytes()).unwrap());
}

#[test]
fn regex_matches_stay_on_char_boundaries() {
    let q = regex_query("x*", false, true);
    assert_eq!(q.search(&rope(&["\u{e9}"])), vec![0..0, 2..2]);
}

#[test]
fn regex_that_matches_invalid_utf8_is_refused() {
    let r = SearchQuery::regex("(?-u:\\xFF)", false, true, Vec::new(), Vec::new());
    assert!(matches!(r, Err(QueryError::InvalidRegex(_))));
}

#[test]
fn regex_detect_on_invalid_utf8_is_an_error() {
    let q = regex_query("a\\nb", false, true);
    assert_eq!(q.detect(&[b'a', b'\n', b'b', 0xFF]), Err(StreamError::NotUtf8));
}

#[test]
fn over_long_literal_is_refused_on_the_wire() {
    let p = SearchProject {
        project_id: 1,
        query: "a".repeat(16777217),
        regex: false,
        whole_word: false,
        case_sensitive: true,
        files_to_include: String::new(),
        files_to_exclude: String::new(),
    };
    assert!(matches!(SearchQuery::from_proto(p), Err(QueryError::QueryTooLong)));
}

#[test]
fn single_line_detect_reads_lines_like_a_line_reader() {
    let q = regex_query("a$", false, true);
    assert_eq!(q.detect(b"a\r\nb"), Ok(true));
    let q = regex_query("^$", false, true);
    assert_eq!(q.detect(b"a\n"), Ok(false));
    assert_eq!(q.detect(b"a\n\nb"), Ok(true));
    let q = regex_query("b", false, true);
    assert_eq!(q.detect(&[b'b', b'\n', 0xFF]), Ok(true));
    assert_eq!(q.detect(&[0xFF, b'\n', b'b']), Err(StreamError::NotUtf8));
}

#[test]
fn over_long_glob_is_refused_on_the_wire() {
    let long = "a".repeat(16777217);
    match deserialize_path_matches(&format!("ok,{long}")) {
        Err(QueryError::GlobTooLong { glob }) => assert_eq!(glob.len(), 16777217),
        other => panic!("unexpected {:?}", other.map(|v| v.len())),
    }
}
