//! Match collection: literal matches with the whole-word rule, and the
//! line-by-line regular-expression scan over a stream of chunks.
use vstd::prelude::*;
use vstd::string::StringSliceAdditionalSpecFns;
use vstd::utf8::{encode_utf8, is_char_boundary, is_continuation_byte, valid_utf8};

use std::ops::Range;

use crate::engines::{first_char, last_char, occurrences_from, occurs_at, regex_find, str_from_utf8, CompiledRegex};
use crate::text::{char_after, char_before, char_kind, char_kind_spec, CharKind};

verus! {

broadcast use vstd::utf8::encode_utf8_decode_utf8;

/// The half-open byte ranges held in `v`.
pub open spec fn ranges(v: Seq<Range<usize>>) -> Seq<(int, int)> {
    v.map_values(|r: Range<usize>| (r.start as int, r.end as int))
}

/// The pairs of `v` as integer ranges.
pub open spec fn pairs(v: Seq<(usize, usize)>) -> Seq<(int, int)> {
    v.map_values(|m: (usize, usize)| (m.0 as int, m.1 as int))
}

/// Each range moved `d` bytes to the right.
pub open spec fn shifted(ms: Seq<(int, int)>, d: int) -> Seq<(int, int)> {
    ms.map_values(|m: (int, int)| (m.0 + d, m.1 + d))
}

/// Whether the ranges `ms` lie within `[0, len]`, each with its start no
/// later than its end, in order and without overlapping.
#[verifier::opaque]
pub open spec fn in_order(ms: Seq<(int, int)>, len: int) -> bool {
    &&& forall|i: int| 0 <= i < ms.len() ==> 0 <= (#[trigger] ms[i]).0 <= ms[i].1 <= len
    &&& forall|i: int| 0 <= i && i + 1 < ms.len() ==> (#[trigger] ms[i]).1 <= ms[i + 1].0
}

/// Whether every range of `ms` starts and ends on a character boundary of
/// the UTF-8 text `bytes`.
pub open spec fn on_char_boundaries(ms: Seq<(int, int)>, bytes: Seq<u8>) -> bool {
    forall|i: int|
        0 <= i < ms.len() ==> is_char_boundary(bytes, (#[trigger] ms[i]).0) && is_char_boundary(
            bytes,
            ms[i].1,
        )
}

/// Whether offset `x` of `s` is the end of `s` or holds a byte that starts
/// a character.
pub open spec fn boundary_byte(s: Seq<u8>, x: int) -> bool {
    x == s.len() || (0 <= x < s.len() && !is_continuation_byte(s[x]))
}

/// In well-formed UTF-8, such an offset is a character boundary.
pub proof fn lemma_boundary_byte(s: Seq<u8>, x: int)
    requires
        valid_utf8(s),
        boundary_byte(s, x),
    ensures
        is_char_boundary(s, x),
{
    if x == s.len() {
        vstd::utf8::is_char_boundary_start_end_of_seq(s);
    } else {
        vstd::utf8::is_char_boundary_iff_not_is_continuation_byte(s, x);
    }
}

/// Appending a range that starts where the last one ends, or later, keeps
/// the ranges in order.
pub proof fn lemma_in_order_push(ms: Seq<(int, int)>, x: (int, int), len: int)
    requires
        in_order(ms, len),
        0 <= x.0 <= x.1 <= len,
        ms.len() > 0 ==> ms.last().1 <= x.0,
    ensures
        in_order(ms.push(x), len),
{
    reveal(in_order);
    let n = ms.push(x);
    assert forall|i: int| 0 <= i && i + 1 < n.len() implies (#[trigger] n[i]).1 <= n[i + 1].0 by {
        if i + 1 < ms.len() {
            assert(n[i] == ms[i] && n[i + 1] == ms[i + 1]);
        } else {
            assert(n[i] == ms.last());
        }
    }
    assert forall|i: int| 0 <= i < n.len() implies 0 <= (#[trigger] n[i]).0 <= n[i].1 <= len by {
        if i < ms.len() {
            assert(n[i] == ms[i]);
        }
    }
}

/// The occurrences of a pattern come in order, without overlapping, all at
/// or after the position the search starts from.
pub proof fn lemma_occurrences_in_order(hay: Seq<u8>, pat: Seq<u8>, cs: bool, from: int)
    requires
        0 <= from,
    ensures
        in_order(occurrences_from(hay, pat, cs, from), hay.len() as int),
        forall|i: int|
            0 <= i < occurrences_from(hay, pat, cs, from).len() ==> from <= (
            #[trigger] occurrences_from(hay, pat, cs, from)[i]).0,
    decreases hay.len() - from,
{
    reveal(in_order);
    if pat.len() == 0 || from + pat.len() > hay.len() {
    } else if occurs_at(hay, pat, from, cs) {
        let next = from + pat.len();
        lemma_occurrences_in_order(hay, pat, cs, next);
        let rest = occurrences_from(hay, pat, cs, next);
        let all = occurrences_from(hay, pat, cs, from);
        assert(all == seq![(from, next)] + rest);
        assert forall|i: int| 0 <= i && i + 1 < all.len() implies (#[trigger] all[i]).1 <= all[i + 1].0 by {
            if i == 0 {
                assert(all[1] == rest[0]);
            } else {
                assert(all[i] == rest[i - 1] && all[i + 1] == rest[i]);
            }
        }
        assert forall|i: int| 0 <= i < all.len() implies 0 <= (#[trigger] all[i]).0 <= all[i].1 <= hay.len() && from <= all[i].0 by {
            if i > 0 {
                assert(all[i] == rest[i - 1]);
            }
        }
    } else {
        lemma_occurrences_in_order(hay, pat, cs, from + 1);
    }
}

/// Ranges in order within a bound are in order within any larger bound.
pub proof fn lemma_in_order_widen(ms: Seq<(int, int)>, len: int, wider: int)
    requires
        in_order(ms, len),
        len <= wider,
    ensures
        in_order(ms, wider),
{
    reveal(in_order);
}

pub open spec fn kind_of(c: Option<char>) -> Option<CharKind> {
    match c {
        Some(c) => Some(char_kind_spec(c)),
        None => None,
    }
}

/// Whether the match `[s, e)` of the UTF-8 text `bytes` is a whole word:
/// the character before it is of another kind than its first character, and
/// the character after it of another kind than its last. The start and the
/// end of the text count as no character.
pub open spec fn is_whole_word(bytes: Seq<u8>, s: int, e: int) -> bool {
    &&& is_char_boundary(bytes, s)
    &&& is_char_boundary(bytes, e)
    &&& char_after(bytes, s) is Some
    &&& char_before(bytes, e) is Some
    &&& kind_of(char_before(bytes, s)) != kind_of(char_after(bytes, s))
    &&& kind_of(char_after(bytes, e)) != kind_of(char_before(bytes, e))
}

/// The matches of `ms` that are whole words of `bytes`, in order.
pub open spec fn whole_words(bytes: Seq<u8>, ms: Seq<(int, int)>) -> Seq<(int, int)>
    decreases ms.len(),
{
    if ms.len() == 0 {
        Seq::empty()
    } else {
        let rest = whole_words(bytes, ms.drop_last());
        if is_whole_word(bytes, ms.last().0, ms.last().1) {
            rest.push(ms.last())
        } else {
            rest
        }
    }
}

fn same_kind(a: Option<char>, b: Option<char>) -> (r: bool)
    ensures
        r == (kind_of(a) == kind_of(b)),
{
    match (a, b) {
        (Some(x), Some(y)) => char_kind(x) == char_kind(y),
        (None, None) => true,
        _ => false,
    }
}

/// Whether the match `[s, e)` of `text` is a whole word.
pub fn whole_word_at(text: &str, s: usize, e: usize) -> (r: bool)
    ensures
        r == is_whole_word(text.spec_bytes(), s as int, e as int),
{
    let ghost bytes = text.spec_bytes();
    if !text.is_char_boundary(s) || !text.is_char_boundary(e) {
        return false;
    }
    let (before_start, from_start) = text.split_at(s);
    let (before_end, from_end) = text.split_at(e);
    proof {
        assert(from_start.spec_bytes() =~= bytes.skip(s as int));
        assert(from_end.spec_bytes() =~= bytes.skip(e as int));
        assert(before_start@ == vstd::utf8::decode_utf8(bytes.take(s as int)));
        assert(before_end@ == vstd::utf8::decode_utf8(bytes.take(e as int)));
        assert(from_start@ == vstd::utf8::decode_utf8(bytes.skip(s as int)));
        assert(from_end@ == vstd::utf8::decode_utf8(bytes.skip(e as int)));
    }
    let first = first_char(from_start);
    let last = last_char(before_end);
    if first.is_none() || last.is_none() {
        return false;
    }
    !same_kind(last_char(before_start), first) && !same_kind(first_char(from_end), last)
}

/// The raw matches `raw` of `text` as ranges, keeping only whole words when
/// `whole_word` is set.
pub fn select_matches(text: &str, raw: &Vec<(usize, usize)>, whole_word: bool) -> (r: Vec<
    Range<usize>,
>)
    ensures
        ranges(r@) == (if whole_word {
            whole_words(text.spec_bytes(), pairs(raw@))
        } else {
            pairs(raw@)
        }),
        in_order(pairs(raw@), text.spec_bytes().len() as int) ==> in_order(
            ranges(r@),
            text.spec_bytes().len() as int,
        ),
        whole_word ==> on_char_boundaries(ranges(r@), text.spec_bytes()),
{
    reveal(in_order);
    let ghost bytes = text.spec_bytes();
    let ghost sorted = in_order(pairs(raw@), bytes.len() as int);
    let mut out: Vec<Range<usize>> = Vec::new();
    let mut k: usize = 0;
    while k < raw.len()
        invariant
            k <= raw@.len(),
            bytes == text.spec_bytes(),
            sorted == in_order(pairs(raw@), bytes.len() as int),
            sorted ==> in_order(ranges(out@), bytes.len() as int),
            whole_word ==> on_char_boundaries(ranges(out@), bytes),
            sorted && out@.len() > 0 ==> k > 0 && out@.last().end <= raw@[k - 1].1,
            ranges(out@) == (if whole_word {
                whole_words(bytes, pairs(raw@.take(k as int)))
            } else {
                pairs(raw@.take(k as int))
            }),
        decreases raw@.len() - k,
    {
        let (s, e) = raw[k];
        proof {
            reveal(in_order);
            if sorted {
                assert(pairs(raw@)[k as int] == (s as int, e as int));
                if k > 0 {
                    assert(pairs(raw@)[k - 1] == (raw@[k - 1].0 as int, raw@[k - 1].1 as int));
                }
            }
            assert(pairs(raw@.take(k + 1)).drop_last() =~= pairs(raw@.take(k as int)));
            assert(pairs(raw@.take(k + 1)).last() == (s as int, e as int));
            assert(pairs(raw@.take(k + 1)) =~= pairs(raw@.take(k as int)).push((s as int, e as int)));
        }
        let ghost prev = out@;
        let keep = if whole_word {
            whole_word_at(text, s, e)
        } else {
            true
        };
        if keep {
            let r = s..e;
            assert(r.start == s && r.end == e);
            out.push(r);
            proof {
                assert(out@ == prev.push(r));
                assert(ranges(out@) =~= ranges(prev).push((s as int, e as int)));
                if whole_word {
                    assert forall|i: int| 0 <= i < ranges(out@).len() implies is_char_boundary(
                        bytes,
                        (#[trigger] ranges(out@)[i]).0,
                    ) && is_char_boundary(bytes, ranges(out@)[i].1) by {
                        if i < ranges(prev).len() {
                            assert(ranges(out@)[i] == ranges(prev)[i]);
                        }
                    }
                }
                if sorted && prev.len() > 0 {
                    assert(ranges(prev)[prev.len() - 1] == (
                        prev.last().start as int,
                        prev.last().end as int,
                    ));
                }
            }
        }
        proof {
            let upto = pairs(raw@.take(k + 1));
            if whole_word {
                assert(whole_words(bytes, upto) == (if is_whole_word(bytes, s as int, e as int) {
                    whole_words(bytes, upto.drop_last()).push(upto.last())
                } else {
                    whole_words(bytes, upto.drop_last())
                }));
                assert(keep == is_whole_word(bytes, s as int, e as int));
                assert(ranges(out@) == whole_words(bytes, upto));
            } else {
                assert(ranges(out@) == upto);
            }
        }
        k = k + 1;
    }
    proof {
        assert(raw@.take(k as int) =~= raw@);
    }
    out
}

/// Converts engine matches to ranges.
pub fn to_ranges(raw: &Vec<(usize, usize)>) -> (r: Vec<Range<usize>>)
    ensures
        ranges(r@) == pairs(raw@),
{
    let mut out: Vec<Range<usize>> = Vec::new();
    let mut k: usize = 0;
    while k < raw.len()
        invariant
            k <= raw@.len(),
            ranges(out@) == pairs(raw@.take(k as int)),
        decreases raw@.len() - k,
    {
        let (s, e) = raw[k];
        let ghost prev = out@;
        let r = s..e;
        assert(r.start == s && r.end == e);
        out.push(r);
        proof {
            assert(out@ == prev.push(r));
            assert(ranges(out@) =~= ranges(prev).push((s as int, e as int)));
            assert(pairs(raw@.take(k + 1)) =~= pairs(raw@.take(k as int)).push((s as int, e as int)));
        }
        k = k + 1;
    }
    proof {
        assert(raw@.take(k as int) =~= raw@);
    }
    out
}

// ---------------------------------------------------------------------------
// Line-by-line scanning
// ---------------------------------------------------------------------------

/// The start of the last line of `s`: just past its last newline, or 0.
pub open spec fn last_line_start(s: Seq<u8>) -> int
    decreases s.len(),
{
    if s.len() == 0 {
        0
    } else if s.last() == 10 {
        s.len() as int
    } else {
        last_line_start(s.drop_last())
    }
}

/// The matches of `pattern` in `line`; bytes that are not well-formed
/// UTF-8 hold no match.
pub open spec fn line_hits(pattern: Seq<char>, flags: (bool, bool), line: Seq<u8>) -> Seq<
    (int, int),
> {
    if valid_utf8(line) {
        regex_find(pattern, flags, line)
    } else {
        Seq::empty()
    }
}

/// The matches of `pattern` in each line of `s` that a newline ends, each
/// line searched on its own, as ranges of `s`.
pub open spec fn closed_line_matches(pattern: Seq<char>, flags: (bool, bool), s: Seq<u8>) -> Seq<
    (int, int),
>
    decreases s.len(),
{
    if s.len() == 0 {
        Seq::empty()
    } else if s.last() == 10 {
        let pre = s.drop_last();
        let st = last_line_start(pre);
        closed_line_matches(pattern, flags, pre) + shifted(
            line_hits(pattern, flags, pre.skip(st)),
            st,
        )
    } else {
        closed_line_matches(pattern, flags, s.drop_last())
    }
}

/// The matches of `pattern` in every line of `s`, the last one included,
/// each line searched on its own, as ranges of `s`.
pub open spec fn line_matches(pattern: Seq<char>, flags: (bool, bool), s: Seq<u8>) -> Seq<
    (int, int),
> {
    closed_line_matches(pattern, flags, s.push(10))
}

pub proof fn lemma_last_line_start_bounds(s: Seq<u8>)
    ensures
        0 <= last_line_start(s) <= s.len(),
    decreases s.len(),
{
    if s.len() > 0 && s.last() != 10 {
        lemma_last_line_start_bounds(s.drop_last());
    }
}

/// Appends the matches `hits` of a line of `line_len` bytes that starts at
/// byte `offset`, moved to their place in the text.
fn append_shifted(
    found: &mut Vec<Range<usize>>,
    hits: &Vec<(usize, usize)>,
    offset: usize,
    line_len: usize,
)
    requires
        offset + line_len <= usize::MAX,
        forall|i: int| 0 <= i < hits@.len() ==> hits@[i].0 <= hits@[i].1 && hits@[i].1 <= line_len,
        forall|i: int| 0 <= i && i + 1 < hits@.len() ==> (#[trigger] hits@[i]).1 <= hits@[i + 1].0,
        in_order(ranges(old(found)@), offset + line_len),
        old(found)@.len() > 0 ==> old(found)@.last().end <= offset,
    ensures
        ranges(final(found)@) == ranges(old(found)@) + shifted(pairs(hits@), offset as int),
        in_order(ranges(final(found)@), offset + line_len),
        final(found)@.len() > 0 ==> final(found)@.last().end <= offset + line_len,
{
    let ghost base = ranges(found@);
    let ghost here = shifted(pairs(hits@), offset as int);
    let mut k: usize = 0;
    while k < hits.len()
        invariant
            k <= hits@.len(),
            offset + line_len <= usize::MAX,
            forall|i: int| 0 <= i < hits@.len() ==> hits@[i].0 <= hits@[i].1 && hits@[i].1 <= line_len,
            forall|i: int| 0 <= i && i + 1 < hits@.len() ==> (#[trigger] hits@[i]).1 <= hits@[i + 1].0,
            here == shifted(pairs(hits@), offset as int),
            ranges(found@) == base + here.take(k as int),
            in_order(ranges(found@), offset + line_len),
            found@.len() > 0 ==> found@.last().end <= offset + (if k == 0 {
                0
            } else {
                hits@[k - 1].1 as int
            }),
        decreases hits@.len() - k,
    {
        let (s, e) = hits[k];
        let start = offset + s;
        let end = offset + e;
        let ghost prev = found@;
        let r = start..end;
        assert(r.start == start && r.end == end);
        found.push(r);
        proof {
            assert(found@ == prev.push(r));
            if prev.len() > 0 {
                assert(ranges(prev)[prev.len() - 1] == (prev.last().start as int, prev.last().end as int));
            }
            if k > 0 {
                assert(hits@[k - 1].1 <= hits@[k as int].0);
            }
            assert(pairs(hits@)[k as int] == (s as int, e as int));
            assert(here[k as int] == (start as int, end as int));
            assert(here.take(k + 1) =~= here.take(k as int).push((start as int, end as int)));
            assert(ranges(found@) =~= ranges(prev).push((start as int, end as int)));
            lemma_in_order_push(ranges(prev), (start as int, end as int), offset + line_len);
        }
        k = k + 1;
    }
    proof {
        assert(here.take(k as int) =~= here);
    }
}

/// Collects the matches of a regular expression line by line over text that
/// arrives in pieces. What it reports depends only on the bytes fed, not on
/// where one piece ends and the next begins.
pub struct LineScanner {
    line: Vec<u8>,
    line_offset: usize,
    pos: usize,
    found: Vec<Range<usize>>,
    seen: Ghost<Seq<u8>>,
    pattern: Ghost<Seq<char>>,
    flags: Ghost<(bool, bool)>,
}

impl LineScanner {
    /// The bytes fed so far.
    pub closed spec fn seen(&self) -> Seq<u8> {
        self.seen@
    }

    /// The pattern and flags of the expression that this scanner runs.
    pub closed spec fn runs(&self, re: &CompiledRegex) -> bool {
        self.pattern@ == re.pattern() && self.flags@ == re.flags()
    }

    pub closed spec fn wf(&self) -> bool {
        &&& self.pos as int == self.seen@.len()
        &&& self.line_offset as int == last_line_start(self.seen@)
        &&& self.line@ == self.seen@.skip(self.line_offset as int)
        &&& ranges(self.found@) == closed_line_matches(self.pattern@, self.flags@, self.seen@)
        &&& in_order(ranges(self.found@), self.pos as int)
        &&& self.found@.len() > 0 ==> self.found@.last().end <= self.line_offset
        &&& forall|i: int|
            0 <= i < self.found@.len() ==> (#[trigger] self.found@[i]).end < self.line_offset
                && self.found@[i].start < self.seen@.len() && !is_continuation_byte(
                self.seen@[self.found@[i].start as int],
            ) && !is_continuation_byte(self.seen@[self.found@[i].end as int])
    }

    pub fn new(re: &CompiledRegex) -> (r: LineScanner)
        ensures
            r.wf(),
            r.runs(re),
            r.seen() == Seq::<u8>::empty(),
    {
        let r = LineScanner {
            line: Vec::new(),
            line_offset: 0,
            pos: 0,
            found: Vec::new(),
            seen: Ghost(Seq::empty()),
            pattern: Ghost(re.pattern()),
            flags: Ghost(re.flags()),
        };
        assert(r.line@ =~= r.seen@.skip(0));
        reveal(in_order);
        assert(ranges(r.found@) =~= Seq::<(int, int)>::empty());
        r
    }

    /// Searches the current line and appends its matches, moved to their
    /// place in the text.
    fn flush(&mut self, re: &CompiledRegex)
        requires
            old(self).wf(),
            old(self).runs(re),
        ensures
            final(self).line == old(self).line,
            final(self).line_offset == old(self).line_offset,
            final(self).pos == old(self).pos,
            final(self).seen == old(self).seen,
            final(self).pattern == old(self).pattern,
            final(self).flags == old(self).flags,
            ranges(final(self).found@) == closed_line_matches(
                old(self).pattern@,
                old(self).flags@,
                old(self).seen@.push(10),
            ),
            in_order(ranges(final(self).found@), old(self).pos as int),
            final(self).found@.len() > 0 ==> final(self).found@.last().end <= old(self).pos,
            forall|i: int|
                0 <= i < final(self).found@.len() ==> (#[trigger] final(self).found@[i]).end
                    <= old(self).pos && boundary_byte(
                    old(self).seen@,
                    final(self).found@[i].start as int,
                ) && boundary_byte(old(self).seen@, final(self).found@[i].end as int),
    {
        let ghost seen = self.seen@;
        let ghost before = self.found@;
        let hits: Vec<(usize, usize)> = match str_from_utf8(self.line.as_slice()) {
            Some(text) => {
                proof {
                    vstd::utf8::encode_utf8_valid_utf8(text@);
                }
                let found = re.find_all(text);
                proof {
                    assert forall|i: int| 0 <= i < found@.len() implies boundary_byte(
                        self.line@,
                        (#[trigger] found@[i]).0 as int,
                    ) && boundary_byte(self.line@, found@[i].1 as int) by {
                        if found@[i].0 < self.line@.len() {
                            vstd::utf8::is_char_boundary_iff_not_is_continuation_byte(
                                self.line@,
                                found@[i].0 as int,
                            );
                        }
                        if found@[i].1 < self.line@.len() {
                            vstd::utf8::is_char_boundary_iff_not_is_continuation_byte(
                                self.line@,
                                found@[i].1 as int,
                            );
                        }
                    }
                }
                found
            },
            None => Vec::new(),
        };
        assert(pairs(hits@) =~= line_hits(re.pattern(), re.flags(), self.line@));
        proof {
            lemma_last_line_start_bounds(seen);
            assert(seen.push(10).drop_last() =~= seen);
        }
        append_shifted(&mut self.found, &hits, self.line_offset, self.line.len());
        proof {
            let lo = self.line_offset as int;
            assert forall|i: int| 0 <= i < self.found@.len() implies (#[trigger] self.found@[i]).end
                <= self.pos && boundary_byte(seen, self.found@[i].start as int) && boundary_byte(
                seen,
                self.found@[i].end as int,
            ) by {
                let r = ranges(self.found@)[i];
                assert(r == (self.found@[i].start as int, self.found@[i].end as int));
                if i < before.len() {
                    assert(ranges(before)[i] == r);
                    assert(before[i] == self.found@[i]);
                } else {
                    let j = i - before.len();
                    assert(r == shifted(pairs(hits@), lo)[j]);
                    assert(pairs(hits@)[j] == (hits@[j].0 as int, hits@[j].1 as int));
                    assert(boundary_byte(self.line@, hits@[j].0 as int));
                    assert(boundary_byte(self.line@, hits@[j].1 as int));
                    assert(self.line@.len() + lo == seen.len());
                    if hits@[j].0 < self.line@.len() {
                        assert(self.line@[hits@[j].0 as int] == seen[lo + hits@[j].0]);
                    }
                    if hits@[j].1 < self.line@.len() {
                        assert(self.line@[hits@[j].1 as int] == seen[lo + hits@[j].1]);
                    }
                }
            }
        }
    }

    /// Feeds the next piece of text.
    pub fn feed(&mut self, re: &CompiledRegex, piece: &[u8])
        requires
            old(self).wf(),
            old(self).runs(re),
            old(self).seen().len() + piece@.len() <= usize::MAX,
        ensures
            final(self).wf(),
            final(self).runs(re),
            final(self).seen() == old(self).seen() + piece@,
    {
        let ghost start = self.seen@;
        let mut j: usize = 0;
        while j < piece.len()
            invariant
                self.wf(),
                self.runs(re),
                j <= piece@.len(),
                self.seen@ == start + piece@.take(j as int),
                start.len() + piece@.len() <= usize::MAX,
            decreases piece@.len() - j,
        {
            let b = piece[j];
            let ghost before = self.seen@;
            let ghost after = before.push(b);
            proof {
                assert(after.drop_last() =~= before);
                assert(start + piece@.take(j + 1) =~= after);
            }
            if b == 10 {
                self.flush(re);
                self.line.clear();
                self.pos = self.pos + 1;
                self.line_offset = self.pos;
                self.seen = Ghost(after);
                proof {
                    assert(self.line@ =~= after.skip(after.len() as int));
                    lemma_in_order_widen(ranges(self.found@), (self.pos - 1) as int, self.pos as int);
                }
            } else {
                self.line.push(b);
                self.pos = self.pos + 1;
                self.seen = Ghost(after);
                proof {
                    lemma_in_order_widen(ranges(self.found@), (self.pos - 1) as int, self.pos as int);
                    lemma_last_line_start_bounds(before);
                    assert(self.line@ =~= after.skip(self.line_offset as int));
                }
            }
            j = j + 1;
        }
        proof {
            assert(piece@.take(j as int) =~= piece@);
        }
    }

    /// Ends the text, searching its last line, and returns every match.
    pub fn finish(self, re: &CompiledRegex) -> (r: Vec<Range<usize>>)
        requires
            self.wf(),
            self.runs(re),
        ensures
            ranges(r@) == line_matches(re.pattern(), re.flags(), self.seen()),
            in_order(ranges(r@), self.seen().len() as int),
            forall|i: int|
                0 <= i < r@.len() ==> boundary_byte(self.seen(), (#[trigger] r@[i]).start as int)
                    && boundary_byte(self.seen(), r@[i].end as int),
    {
        let mut s = self;
        s.flush(re);
        s.found
    }
}

// ---------------------------------------------------------------------------
// Line-by-line detection, as a line reader splits a stream
// ---------------------------------------------------------------------------

/// A line without the carriage return that ended it, if any.
pub open spec fn strip_cr(line: Seq<u8>) -> Seq<u8> {
    if line.len() > 0 && line.last() == 13 {
        line.drop_last()
    } else {
        line
    }
}

/// What one line decides: `Some(false)` when it is not UTF-8 (the reader
/// fails there), `Some(true)` when it holds a match, `None` otherwise.
pub open spec fn line_verdict(pattern: Seq<char>, flags: (bool, bool), line: Seq<u8>) -> Option<
    bool,
> {
    if !valid_utf8(line) {
        Some(false)
    } else if regex_find(pattern, flags, line).len() > 0 {
        Some(true)
    } else {
        None
    }
}

/// The verdict of the first deciding line among the lines of `s` that a
/// newline ends, each taken without its newline and a carriage return just
/// before it.
pub open spec fn closed_verdict(pattern: Seq<char>, flags: (bool, bool), s: Seq<u8>) -> Option<
    bool,
>
    decreases s.len(),
{
    if s.len() == 0 {
        None
    } else if s.last() == 10 {
        let pre = s.drop_last();
        let v = closed_verdict(pattern, flags, pre);
        if v is Some {
            v
        } else {
            line_verdict(pattern, flags, strip_cr(pre.skip(last_line_start(pre))))
        }
    } else {
        closed_verdict(pattern, flags, s.drop_last())
    }
}

/// The verdict of the first deciding line of `s`, read as a line reader
/// does: lines end at newlines, a carriage return before a newline is
/// dropped, and a last line without a newline counts only when it is not
/// empty.
pub open spec fn reader_verdict(pattern: Seq<char>, flags: (bool, bool), s: Seq<u8>) -> Option<
    bool,
> {
    let v = closed_verdict(pattern, flags, s);
    if v is Some {
        v
    } else if last_line_start(s) < s.len() {
        line_verdict(pattern, flags, s.skip(last_line_start(s)))
    } else {
        None
    }
}

/// Once a line has decided, later bytes do not change the verdict.
proof fn lemma_verdict_stays(pattern: Seq<char>, flags: (bool, bool), s: Seq<u8>, k: int)
    requires
        0 <= k <= s.len(),
        closed_verdict(pattern, flags, s.take(k)) is Some,
    ensures
        closed_verdict(pattern, flags, s) == closed_verdict(pattern, flags, s.take(k)),
    decreases s.len(),
{
    if k == s.len() {
        assert(s.take(k) =~= s);
    } else {
        let dl = s.drop_last();
        assert(dl.take(k) =~= s.take(k));
        lemma_verdict_stays(pattern, flags, dl, k);
    }
}

/// What the line held in `line` decides.
fn judge_line(re: &CompiledRegex, line: &[u8]) -> (r: Option<bool>)
    ensures
        r == line_verdict(re.pattern(), re.flags(), line@),
{
    match str_from_utf8(line) {
        Some(text) => {
            proof {
                vstd::utf8::encode_utf8_valid_utf8(text@);
            }
            let hits = re.find_all(text);
            proof {
                assert(pairs(hits@).len() == hits@.len());
            }
            if hits.len() > 0 {
                Some(true)
            } else {
                None
            }
        },
        None => Some(false),
    }
}

/// The verdict of the first deciding line of `bytes`, read as a line reader
/// does.
pub fn detect_lines(re: &CompiledRegex, bytes: &[u8]) -> (r: Option<bool>)
    ensures
        r == reader_verdict(re.pattern(), re.flags(), bytes@),
{
    let ghost all = bytes@;
    let n = bytes.len();
    let mut line: Vec<u8> = Vec::new();
    let mut start: usize = 0;
    let mut j: usize = 0;
    assert(all.take(0) =~= Seq::<u8>::empty());
    while j < n
        invariant
            n == all.len(),
            all == bytes@,
            j <= n,
            start as int == last_line_start(all.take(j as int)),
            start <= j,
            line@ == all.take(j as int).skip(start as int),
            closed_verdict(re.pattern(), re.flags(), all.take(j as int)) is None,
        decreases n - j,
    {
        let b = bytes[j];
        let ghost before = all.take(j as int);
        proof {
            assert(all.take(j + 1).drop_last() =~= before);
            lemma_last_line_start_bounds(before);
        }
        if b == 10 {
            let mut tested = line.clone();
            proof {
                assert(tested@ == line@);
            }
            if tested.len() > 0 && tested[tested.len() - 1] == 13 {
                tested.pop();
            }
            proof {
                assert(tested@ =~= strip_cr(before.skip(start as int)));
            }
            let v = judge_line(re, tested.as_slice());
            if v.is_some() {
                proof {
                    lemma_verdict_stays(re.pattern(), re.flags(), all, j + 1);
                }
                return v;
            }
            line.clear();
            start = j + 1;
            proof {
                assert(line@ =~= all.take(j + 1).skip(start as int));
            }
        } else {
            line.push(b);
            proof {
                assert(line@ =~= all.take(j + 1).skip(start as int));
            }
        }
        j = j + 1;
    }
    proof {
        assert(all.take(n as int) =~= all);
    }
    if line.len() > 0 {
        judge_line(re, line.as_slice())
    } else {
        None
    }
}

} // verus!
