//! Documents and their identifiers.

use crate::bytes::{
    be_u32, be_u64, lemma_be_u32_at, lemma_be_u64_at, lemma_u32_at_be, lemma_u64_at_be, push_u32,
    push_u64, read_u32, read_u64, u32_at, u64_at,
};
use vstd::prelude::*;

verus! {

/// A twelve-byte document identifier. `hi` holds the first four bytes and
/// `lo` the last eight, both big-endian, so that the order of the pairs is
/// the order of the identifiers.
#[derive(Clone, Copy, Debug, PartialEq, Eq, Structural, PartialOrd, Ord, Hash)]
pub struct DocId {
    pub hi: u32,
    pub lo: u64,
}

/// A document as the store hands it out: its identifier and its words in the
/// order in which they occur, repetitions included.
#[derive(Clone, Debug)]
pub struct Doc {
    pub _id: DocId,
    pub title: String,
    pub path: String,
    pub words: Vec<String>,
}

/// The twelve bytes of an identifier.
pub open spec fn encode_doc_id(d: DocId) -> Seq<u8> {
    be_u32(d.hi) + be_u64(d.lo)
}

/// The identifier whose bytes are `data[p .. p + 12]`.
pub open spec fn doc_id_at(data: Seq<u8>, p: int) -> DocId {
    DocId { hi: u32_at(data, p), lo: u64_at(data, p + 4) }
}

/// The bytes of a word.
pub open spec fn word_bytes(w: String) -> Seq<u8> {
    vstd::utf8::encode_utf8(w@)
}

/// The words of a document as byte strings.
pub open spec fn words_as_terms(words: Seq<String>) -> Seq<Seq<u8>> {
    Seq::new(words.len(), |i: int| word_bytes(words[i]))
}

impl DocId {
    /// The identifier as one number: identifiers are ordered as their keys
    /// are, and two identifiers with one key are equal.
    pub open spec fn key(self) -> int {
        self.hi as int * 0x1_0000_0000_0000_0000 + self.lo as int
    }

    /// The identifier with the given bytes.
    pub fn from_bytes(bytes: [u8; 12]) -> (d: DocId)
        ensures
            d == doc_id_at(bytes@, 0),
            encode_doc_id(d) == bytes@,
    {
        let d = read_doc_id(bytes.as_slice(), 0);
        proof {
            lemma_encode_doc_id_at(bytes@, 0);
            assert(bytes@.subrange(0, 12) =~= bytes@);
        }
        d
    }

    /// The bytes of the identifier.
    pub fn bytes(&self) -> (b: [u8; 12])
        ensures
            b@ == encode_doc_id(*self),
    {
        let h = self.hi;
        let l = self.lo;
        let b: [u8; 12] = [
            (h >> 24) as u8,
            ((h >> 16) & 0xff) as u8,
            ((h >> 8) & 0xff) as u8,
            (h & 0xff) as u8,
            (l >> 56) as u8,
            ((l >> 48) & 0xff) as u8,
            ((l >> 40) & 0xff) as u8,
            ((l >> 32) & 0xff) as u8,
            ((l >> 24) & 0xff) as u8,
            ((l >> 16) & 0xff) as u8,
            ((l >> 8) & 0xff) as u8,
            (l & 0xff) as u8,
        ];
        assert(b@ =~= encode_doc_id(*self));
        b
    }

    /// Whether this identifier comes before `other`.
    pub fn precedes(&self, other: &DocId) -> (r: bool)
        ensures
            r == (self.key() < other.key()),
    {
        self.hi < other.hi || (self.hi == other.hi && self.lo < other.lo)
    }

    /// The key as a machine integer.
    pub fn key_u128(&self) -> (k: u128)
        ensures
            k == self.key(),
    {
        (self.hi as u128) * 0x1_0000_0000_0000_0000u128 + (self.lo as u128)
    }
}

/// Two identifiers with one key are equal.
pub proof fn lemma_key_injective(a: DocId, b: DocId)
    requires
        a.key() == b.key(),
    ensures
        a == b,
{
}

/// Identifiers are ordered as their bytes are: one comes before another if
/// and only if its twelve bytes come before the other's in the
/// lexicographic order.
pub proof fn lemma_doc_id_order(a: DocId, b: DocId)
    ensures
        crate::bytes::lex_lt(encode_doc_id(a), encode_doc_id(b)) == (a.key() < b.key()),
        (encode_doc_id(a) == encode_doc_id(b)) == (a == b),
{
    crate::bytes::lemma_be_u32_order(a.hi, b.hi);
    crate::bytes::lemma_be_u64_order(a.lo, b.lo);
    crate::bytes::lemma_lex_concat(be_u32(a.hi), be_u64(a.lo), be_u32(b.hi), be_u64(b.lo));
    if encode_doc_id(a) == encode_doc_id(b) {
        let x = encode_doc_id(a);
        let y = encode_doc_id(b);
        assert(be_u32(a.hi) =~= x.subrange(0, 4));
        assert(be_u32(b.hi) =~= y.subrange(0, 4));
        assert(be_u64(a.lo) =~= x.subrange(4, 12));
        assert(be_u64(b.lo) =~= y.subrange(4, 12));
    }
}

/// Reading back the bytes of an identifier gives the identifier.
pub proof fn lemma_doc_id_at_encode(data: Seq<u8>, p: int, d: DocId)
    requires
        0 <= p,
        p + 12 <= data.len(),
        data.subrange(p, p + 12) == encode_doc_id(d),
    ensures
        doc_id_at(data, p) == d,
{
    let s = data.subrange(p, p + 12);
    assert(data.subrange(p, p + 4) =~= be_u32(d.hi)) by {
        assert forall|k: int| 0 <= k < 4 implies data.subrange(p, p + 4)[k] == be_u32(d.hi)[k] by {
            assert(data[p + k] == s[k]);
        }
    }
    assert(data.subrange(p + 4, p + 12) =~= be_u64(d.lo)) by {
        assert forall|k: int| 0 <= k < 8 implies data.subrange(p + 4, p + 12)[k] == be_u64(
            d.lo,
        )[k] by {
            assert(data[p + 4 + k] == s[4 + k]);
        }
    }
    lemma_u32_at_be(data, p, d.hi);
    lemma_u64_at_be(data, p + 4, d.lo);
}

/// The bytes of the identifier read at `p` are the twelve bytes that stand
/// there.
pub proof fn lemma_encode_doc_id_at(data: Seq<u8>, p: int)
    requires
        0 <= p,
        p + 12 <= data.len(),
    ensures
        encode_doc_id(doc_id_at(data, p)) == data.subrange(p, p + 12),
{
    lemma_be_u32_at(data, p);
    lemma_be_u64_at(data, p + 4);
    assert(data.subrange(p, p + 4) + data.subrange(p + 4, p + 12) =~= data.subrange(p, p + 12));
}

/// Appends the bytes of `d` to `out`.
pub fn push_doc_id(out: &mut Vec<u8>, d: DocId)
    ensures
        final(out)@ == old(out)@ + encode_doc_id(d),
{
    push_u32(out, d.hi);
    push_u64(out, d.lo);
    assert(out@ =~= old(out)@ + encode_doc_id(d));
}

/// Reads the identifier that stands at `pos`.
pub fn read_doc_id(data: &[u8], pos: usize) -> (d: DocId)
    requires
        pos + 12 <= data@.len(),
    ensures
        d == doc_id_at(data@, pos as int),
{
    let len = data.len();
    assert(pos + 12 <= len);
    let hi = read_u32(data, pos);
    let lo = read_u64(data, pos + 4);
    DocId { hi, lo }
}

/// The bytes of each word, in order.
pub fn terms_of(words: &Vec<String>) -> (terms: Vec<Vec<u8>>)
    ensures
        terms@.len() == words@.len(),
        forall|i: int| 0 <= i < words@.len() ==> (#[trigger] terms@[i])@ == word_bytes(words@[i]),
{
    let mut terms: Vec<Vec<u8>> = Vec::new();
    let mut i: usize = 0;
    while i < words.len()
        invariant
            i <= words@.len(),
            terms@.len() == i,
            forall|k: int| 0 <= k < i ==> (#[trigger] terms@[k])@ == word_bytes(words@[k]),
        decreases words.len() - i,
    {
        let b = words[i].as_str().as_bytes();
        let t = crate::bytes::copy_range(b, 0, b.len());
        assert(t@ =~= word_bytes(words@[i as int]));
        terms.push(t);
        i = i + 1;
    }
    terms
}

} // verus!
