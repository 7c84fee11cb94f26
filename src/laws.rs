//! Properties of the search engine that relate several calls or hold for
//! all inputs, proved over the specifications of the functions involved.
use vstd::prelude::*;
use vstd::utf8::encode_utf8;

use crate::engines::{join_spec, occurrences_from, occurs_at, split_spec, trim_spec};
use crate::query::{effective_pattern, glob_list, has_newline, newline_at, nonempty_trimmed, SearchQuery};
use crate::text::Rope;

verus! {

/// A non-empty character sequence has a non-empty encoding.
pub proof fn lemma_encode_nonempty(s: Seq<char>)
    requires
        s.len() > 0,
    ensures
        encode_utf8(s).len() > 0,
{
    vstd::utf8::char_is_scalar(s[0]);
}

/// No occurrence at or after `from` means none is reported from there.
proof fn lemma_no_occurrences(hay: Seq<u8>, pat: Seq<u8>, cs: bool, from: int)
    requires
        pat.len() > 0,
        0 <= from,
        forall|j: int| from <= j ==> !occurs_at(hay, pat, j, cs),
    ensures
        occurrences_from(hay, pat, cs, from) == Seq::<(int, int)>::empty(),
    decreases hay.len() - from,
{
    if from + pat.len() <= hay.len() {
        lemma_no_occurrences(hay, pat, cs, from + 1);
    }
}

/// The first occurrence at or after `from` is the first one reported.
proof fn lemma_first_occurrence(hay: Seq<u8>, pat: Seq<u8>, cs: bool, from: int, i: int)
    requires
        pat.len() > 0,
        0 <= from <= i,
        occurs_at(hay, pat, i, cs),
        forall|j: int| from <= j < i ==> !occurs_at(hay, pat, j, cs),
    ensures
        occurrences_from(hay, pat, cs, from) == seq![(i, i + pat.len())] + occurrences_from(
            hay,
            pat,
            cs,
            i + pat.len(),
        ),
    decreases i - from,
{
    if from < i {
        lemma_first_occurrence(hay, pat, cs, from + 1, i);
    }
}

/// A literal search that is not restricted to whole words, over a document
/// in which the non-empty query occurs exactly once, reports exactly that
/// occurrence.
pub proof fn lemma_single_occurrence(q: SearchQuery, bytes: Seq<u8>, i: int)
    requires
        q is Text,
        !q.whole_word_spec(),
        q.query_text().len() > 0,
        occurs_at(bytes, encode_utf8(q.query_text()), i, q.case_sensitive_spec()),
        forall|j: int|
            j != i ==> !occurs_at(bytes, encode_utf8(q.query_text()), j, q.case_sensitive_spec()),
    ensures
        q.matches_in(bytes) == seq![(i, i + encode_utf8(q.query_text()).len())],
{
    let pat = encode_utf8(q.query_text());
    let cs = q.case_sensitive_spec();
    lemma_encode_nonempty(q.query_text());
    lemma_first_occurrence(bytes, pat, cs, 0, i);
    lemma_no_occurrences(bytes, pat, cs, i + pat.len());
    assert(seq![(i, i + pat.len())] + Seq::<(int, int)>::empty() =~= seq![(i, i + pat.len())]);
}

/// An empty query finds nothing and detects nothing, whatever the input.
pub proof fn lemma_empty_query(q: SearchQuery, bytes: Seq<u8>)
    requires
        q.query_text().len() == 0,
    ensures
        q.matches_in(bytes) == Seq::<(int, int)>::empty(),
        q.detect_outcome(bytes) == Some(false),
{
}

/// How a document is cut into chunks does not change what a search of it
/// reports: two ropes with the same text give the same ranges.
pub proof fn lemma_chunking_irrelevant(q: SearchQuery, a: Rope, b: Rope)
    requires
        a.chars() == b.chars(),
    ensures
        q.matches_in(a.bytes()) == q.matches_in(b.bytes()),
{
}

/// Putting a pattern between word boundaries neither adds nor hides a
/// newline or a `\n` escape.
pub proof fn lemma_wrapping_keeps_newlines(q: Seq<char>, whole_word: bool)
    ensures
        has_newline(effective_pattern(q, whole_word)) == has_newline(q),
{
    if whole_word {
        let p = effective_pattern(q, whole_word);
        assert(p.len() == q.len() + 4);
        assert forall|j: int| 0 <= j < q.len() implies #[trigger] p[j + 2] == q[j] by {}
        assert(p[0] == '\\' && p[1] == 'b');
        assert(p[q.len() + 2int] == '\\' && p[q.len() + 3int] == 'b');
        if has_newline(q) {
            let j = choose|j: int| 0 <= j < q.len() && #[trigger] newline_at(q, j);
            assert(newline_at(p, j + 2));
        }
        if has_newline(p) {
            let i = choose|i: int| 0 <= i < p.len() && #[trigger] newline_at(p, i);
            assert(2 <= i < q.len() + 2);
            if p[i] == '\\' && p[i + 1] == 'n' {
                assert(i + 1 < q.len() + 2);
            }
            assert(newline_at(q, i - 2));
        }
    }
}

/// A regular-expression query is multi-line exactly when the query text
/// holds a newline character or the escape `\n`: a pattern with a newline
/// character in it is multi-line, and one with neither is not.
pub proof fn lemma_multiline_detection(q: SearchQuery)
    requires
        q.wf(),
        q is Regex,
    ensures
        q.is_multiline() == has_newline(q.query_text()),
        forall|i: int|
            0 <= i < q.query_text().len() && #[trigger] q.query_text()[i] == '\n'
                ==> q.is_multiline(),
{
    lemma_wrapping_keeps_newlines(q.query_text(), q.whole_word_spec());
    assert forall|i: int|
        0 <= i < q.query_text().len() && #[trigger] q.query_text()[i] == '\n' implies q.is_multiline() by {
        assert(newline_at(q.query_text(), i));
    }
}

/// Whether `p` can travel in a comma-separated list unchanged: it is not
/// empty, holds no comma, and has no surrounding whitespace.
pub open spec fn travels_unchanged(p: Seq<char>) -> bool {
    &&& p.len() > 0
    &&& trim_spec(p) == p
    &&& forall|k: int| 0 <= k < p.len() ==> p[k] != ','
}

proof fn lemma_split_len(s: Seq<char>, sep: char)
    ensures
        split_spec(s, sep).len() >= 1,
    decreases s.len(),
{
    if s.len() > 0 {
        lemma_split_len(s.drop_first(), sep);
    }
}

proof fn lemma_split_no_sep(b: Seq<char>, sep: char)
    requires
        forall|k: int| 0 <= k < b.len() ==> b[k] != sep,
    ensures
        split_spec(b, sep) == seq![b],
    decreases b.len(),
{
    if b.len() == 0 {
        assert(b =~= Seq::<char>::empty());
        assert(seq![Seq::<char>::empty()] =~= seq![b]);
    } else {
        lemma_split_no_sep(b.drop_first(), sep);
        assert(seq![b[0]] + b.drop_first() =~= b);
        assert(split_spec(b, sep) =~= seq![b]);
    }
}

proof fn lemma_split_last(x: Seq<char>, sep: char, b: Seq<char>)
    requires
        forall|k: int| 0 <= k < b.len() ==> b[k] != sep,
    ensures
        split_spec(x + seq![sep] + b, sep) == split_spec(x, sep).push(b),
    decreases x.len(),
{
    let y = x + seq![sep] + b;
    if x.len() == 0 {
        assert(y.drop_first() =~= b);
        lemma_split_no_sep(b, sep);
        assert(split_spec(y, sep) =~= split_spec(x, sep).push(b));
    } else {
        assert(y.drop_first() =~= x.drop_first() + seq![sep] + b);
        lemma_split_last(x.drop_first(), sep, b);
        lemma_split_len(x.drop_first(), sep);
        assert(split_spec(y, sep) =~= split_spec(x, sep).push(b));
    }
}

proof fn lemma_split_join(ps: Seq<Seq<char>>)
    requires
        ps.len() >= 1,
        forall|i: int| 0 <= i < ps.len() ==> travels_unchanged(#[trigger] ps[i]),
    ensures
        split_spec(join_spec(ps, ','), ',') == ps,
    decreases ps.len(),
{
    if ps.len() == 1 {
        assert(travels_unchanged(ps[0]));
        lemma_split_no_sep(ps[0], ',');
        assert(seq![ps[0]] =~= ps);
    } else {
        let dl = ps.drop_last();
        assert forall|i: int| 0 <= i < dl.len() implies travels_unchanged(#[trigger] dl[i]) by {
            assert(dl[i] == ps[i]);
        }
        lemma_split_join(dl);
        assert(travels_unchanged(ps[ps.len() - 1]));
        lemma_split_last(join_spec(dl, ','), ',', ps.last());
        assert(dl.push(ps.last()) =~= ps);
    }
}

proof fn lemma_trimmed_kept(ps: Seq<Seq<char>>)
    requires
        forall|i: int| 0 <= i < ps.len() ==> travels_unchanged(#[trigger] ps[i]),
    ensures
        nonempty_trimmed(ps) == ps,
    decreases ps.len(),
{
    if ps.len() > 0 {
        let dl = ps.drop_last();
        assert forall|i: int| 0 <= i < dl.len() implies travels_unchanged(#[trigger] dl[i]) by {
            assert(dl[i] == ps[i]);
        }
        lemma_trimmed_kept(dl);
        assert(travels_unchanged(ps[ps.len() - 1]));
        assert(dl.push(ps.last()) =~= ps);
    }
}

/// Joining filter patterns with commas for the wire and reading the list
/// back yields the same patterns, in order, when each is non-empty, holds
/// no comma and has no surrounding whitespace.
pub proof fn lemma_glob_list_round_trip(ps: Seq<Seq<char>>)
    requires
        forall|i: int| 0 <= i < ps.len() ==> travels_unchanged(#[trigger] ps[i]),
    ensures
        glob_list(join_spec(ps, ',')) == ps,
{
    if ps.len() == 0 {
        let pieces = split_spec(join_spec(ps, ','), ',');
        assert(pieces =~= seq![Seq::<char>::empty()]);
        assert(pieces.drop_last() =~= Seq::<Seq<char>>::empty());
        assert(pieces.last() =~= Seq::<char>::empty());
        assert(trim_spec(pieces.last()).len() == 0);
        assert(nonempty_trimmed(pieces.drop_last()) =~= Seq::<Seq<char>>::empty());
        assert(nonempty_trimmed(pieces) =~= ps);
    } else {
        lemma_split_join(ps);
        lemma_trimmed_kept(ps);
    }
}

} // verus!
