//! The chunked text buffer that searches run over, and the character
//! classification used to tell words apart.
use vstd::prelude::*;
use vstd::utf8::{decode_utf8, encode_utf8};

use crate::engines::{is_alphanumeric, is_whitespace, unicode_alphanumeric, unicode_whitespace};

verus! {

/// The coarse class of a character.
#[derive(Clone, Copy, Debug, PartialEq, Eq, Structural)]
pub enum CharKind {
    Whitespace,
    Punctuation,
    Word,
}

pub open spec fn char_kind_spec(c: char) -> CharKind {
    if unicode_whitespace(c) {
        CharKind::Whitespace
    } else if unicode_alphanumeric(c) || c == '_' {
        CharKind::Word
    } else {
        CharKind::Punctuation
    }
}

/// Classifies `c` as whitespace, a word character (alphanumeric or `_`), or
/// punctuation.
pub fn char_kind(c: char) -> (r: CharKind)
    ensures
        r == char_kind_spec(c),
{
    if is_whitespace(c) {
        CharKind::Whitespace
    } else if is_alphanumeric(c) || c == '_' {
        CharKind::Word
    } else {
        CharKind::Punctuation
    }
}

/// The character that ends just before byte `i` of the UTF-8 text `bytes`.
pub open spec fn char_before(bytes: Seq<u8>, i: int) -> Option<char> {
    let s = decode_utf8(bytes.take(i));
    if s.len() == 0 {
        None
    } else {
        Some(s.last())
    }
}

/// The character that starts at byte `i` of the UTF-8 text `bytes`.
pub open spec fn char_after(bytes: Seq<u8>, i: int) -> Option<char> {
    let s = decode_utf8(bytes.skip(i));
    if s.len() == 0 {
        None
    } else {
        Some(s[0])
    }
}

/// The UTF-8 encoding of a concatenation is the concatenation of the
/// encodings.
pub proof fn lemma_encode_concat(a: Seq<char>, b: Seq<char>)
    ensures
        encode_utf8(a + b) == encode_utf8(a) + encode_utf8(b),
    decreases a.len(),
{
    if a.len() == 0 {
        assert(a + b =~= b);
        assert(encode_utf8(a) =~= Seq::<u8>::empty());
        assert(encode_utf8(a) + encode_utf8(b) =~= encode_utf8(b));
    } else {
        assert((a + b).drop_first() =~= a.drop_first() + b);
        assert((a + b)[0] == a[0]);
        lemma_encode_concat(a.drop_first(), b);
        assert(encode_utf8(a + b) =~= encode_utf8(a) + encode_utf8(b));
    }
}

/// The characters of a sequence of chunks, one after another.
pub open spec fn concat_chunks(chunks: Seq<Seq<char>>) -> Seq<char>
    decreases chunks.len(),
{
    if chunks.len() == 0 {
        Seq::empty()
    } else {
        concat_chunks(chunks.drop_last()) + chunks.last()
    }
}

/// A text document stored as a sequence of string chunks. Offsets into it
/// are byte offsets into its UTF-8 encoding, whatever the chunk boundaries.
pub struct Rope {
    chunks: Vec<String>,
    len: usize,
}

impl Rope {
    /// The characters of each chunk.
    pub closed spec fn chunks_spec(&self) -> Seq<Seq<char>> {
        self.chunks@.map_values(|c: String| c@)
    }

    /// The characters of the whole document.
    pub open spec fn chars(&self) -> Seq<char> {
        concat_chunks(self.chunks_spec())
    }

    /// The bytes of the whole document.
    pub open spec fn bytes(&self) -> Seq<u8> {
        encode_utf8(self.chars())
    }

    pub closed spec fn wf(&self) -> bool {
        self.len as int == self.bytes().len()
    }

    pub fn new() -> (r: Rope)
        ensures
            r.wf(),
            r.chunks_spec() == Seq::<Seq<char>>::empty(),
    {
        let r = Rope { chunks: Vec::new(), len: 0 };
        assert(r.chunks_spec() =~= Seq::<Seq<char>>::empty());
        r
    }

    /// Appends a chunk at the end of the document.
    pub fn push_chunk(&mut self, chunk: &str)
        requires
            old(self).wf(),
            old(self).bytes().len() + encode_utf8(chunk@).len() <= usize::MAX,
        ensures
            final(self).wf(),
            final(self).chunks_spec() == old(self).chunks_spec().push(chunk@),
            final(self).bytes() == old(self).bytes() + encode_utf8(chunk@),
    {
        let ghost before = self.chunks_spec();
        let n = chunk.len();
        self.chunks.push(chunk.to_string());
        self.len = self.len + n;
        proof {
            assert(self.chunks_spec() =~= before.push(chunk@));
            assert(self.chunks_spec().drop_last() =~= before);
            lemma_encode_concat(concat_chunks(before), chunk@);
        }
    }

    pub proof fn lemma_len_fits(&self)
        requires
            self.wf(),
        ensures
            self.bytes().len() <= usize::MAX,
    {
    }

    /// The document's length in bytes.
    pub fn len(&self) -> (r: usize)
        requires
            self.wf(),
        ensures
            r as int == self.bytes().len(),
    {
        self.len
    }

    /// The number of chunks.
    pub fn chunk_count(&self) -> (r: usize)
        ensures
            r == self.chunks_spec().len(),
    {
        self.chunks.len()
    }

    /// The chunk at position `i`.
    pub fn chunk(&self, i: usize) -> (r: &str)
        requires
            i < self.chunks_spec().len(),
        ensures
            r@ == self.chunks_spec()[i as int],
    {
        self.chunks[i].as_str()
    }

    /// The whole document as one string.
    pub fn to_string(&self) -> (r: String)
        ensures
            r@ == self.chars(),
    {
        let mut s = String::new();
        let mut i: usize = 0;
        while i < self.chunks.len()
            invariant
                i <= self.chunks@.len(),
                s@ == concat_chunks(self.chunks_spec().take(i as int)),
            decreases self.chunks@.len() - i,
        {
            proof {
                assert(self.chunks_spec().take(i + 1).drop_last() =~= self.chunks_spec().take(
                    i as int,
                ));
            }
            s.append(self.chunks[i].as_str());
            i = i + 1;
        }
        assert(self.chunks_spec().take(i as int) =~= self.chunks_spec());
        s
    }
}

/// The chunks before position `k` followed by the rest make up the whole.
pub proof fn lemma_concat_split(cs: Seq<Seq<char>>, k: int)
    requires
        0 <= k <= cs.len(),
    ensures
        concat_chunks(cs) == concat_chunks(cs.take(k)) + concat_chunks(cs.skip(k)),
    decreases cs.len(),
{
    if k == cs.len() {
        assert(cs.take(k) =~= cs);
        assert(cs.skip(k) =~= Seq::<Seq<char>>::empty());
        assert(concat_chunks(cs) + Seq::<char>::empty() =~= concat_chunks(cs));
    } else {
        let dl = cs.drop_last();
        lemma_concat_split(dl, k);
        assert(cs.take(k) =~= dl.take(k));
        assert(cs.skip(k).drop_last() =~= dl.skip(k));
        assert(cs.skip(k).last() == cs.last());
        assert(concat_chunks(cs) =~= concat_chunks(cs.take(k)) + concat_chunks(cs.skip(k)));
    }
}

/// The first `i + 1` chunks are the first `i` followed by chunk `i`, and
/// their bytes are a prefix of the document's bytes.
pub proof fn lemma_chunk_step(cs: Seq<Seq<char>>, i: int)
    requires
        0 <= i < cs.len(),
    ensures
        encode_utf8(concat_chunks(cs.take(i + 1))) == encode_utf8(concat_chunks(cs.take(i)))
            + encode_utf8(cs[i]),
        encode_utf8(concat_chunks(cs.take(i + 1))).len() <= encode_utf8(concat_chunks(cs)).len(),
{
    assert(cs.take(i + 1).drop_last() =~= cs.take(i));
    lemma_encode_concat(concat_chunks(cs.take(i)), cs[i]);
    lemma_concat_split(cs, i + 1);
    lemma_encode_concat(concat_chunks(cs.take(i + 1)), concat_chunks(cs.skip(i + 1)));
}

} // verus!
