//! The weights of a query and of a document, as the ranking needs them.

use crate::bytes::{copy_range, is_valid_utf8, read_u64};
use crate::counts::{count_in, count_terms, counts_of};
use crate::db::{terms_of, words_as_terms, DocId};
use crate::engine::Engine;
use crate::error::DecodeError;
use crate::forward::{parse_entries, parse_entry_at, parse_forward_at, ForwardEntry};
use crate::inverted_index::HeadValue;
use crate::term_map::{key_views, TermMap};
use vstd::prelude::*;
use vstd::utf8::valid_utf8;

verus! {

/// What the ranking knows of a term of the query: how often the term
/// stands in the query, and the bits of its inverse document frequency.
#[derive(Clone, Copy, Debug, PartialEq, Eq, Structural)]
pub struct QueryWeight {
    pub count: u64,
    pub idf: u64,
}

/// What the ranking knows of a term of a document: the bits of the weight
/// that the forward index holds for it, and the bits of its inverse
/// document frequency.
#[derive(Clone, Copy, Debug, PartialEq, Eq, Structural)]
pub struct DocWeight {
    pub tf: u64,
    pub idf: u64,
}

/// The bits of the inverse document frequency that the head holds for the
/// term; zero for a term that it does not hold.
pub open spec fn idf_of(head: TermMap<HeadValue>, t: Seq<u8>) -> u64 {
    if head@.contains_key(t) {
        head@[t].idf
    } else {
        0
    }
}

/// `q` holds the terms of `words`, each with the number of times it stands
/// there and with its inverse document frequency.
pub open spec fn query_vector_ok(
    head: TermMap<HeadValue>,
    words: Seq<Seq<u8>>,
    q: TermMap<QueryWeight>,
) -> bool {
    &&& q.wf()
    &&& forall|t: Seq<u8>| #[trigger] q@.contains_key(t) <==> count_in(words, t) >= 1
    &&& forall|t: Seq<u8>| #[trigger]
        q@.contains_key(t) ==> q@[t].count == count_in(words, t) && q@[t].idf == idf_of(head, t)
}

/// The weight of each term of the entries, a later entry taking the place
/// of an earlier one of the same term.
pub open spec fn doc_weights(es: Seq<ForwardEntry>) -> Map<Seq<u8>, u64>
    decreases es.len(),
{
    if es.len() == 0 {
        Map::empty()
    } else {
        doc_weights(es.drop_last()).insert(es.last().term, es.last().tf)
    }
}

/// `d` holds the terms of the entries, each with its weight and with its
/// inverse document frequency.
pub open spec fn doc_vector_ok(
    head: TermMap<HeadValue>,
    es: Seq<ForwardEntry>,
    d: TermMap<DocWeight>,
) -> bool {
    &&& d.wf()
    &&& forall|t: Seq<u8>| #[trigger] d@.contains_key(t) <==> doc_weights(es).contains_key(t)
    &&& forall|t: Seq<u8>| #[trigger]
        d@.contains_key(t) ==> d@[t].tf == doc_weights(es)[t] && d@[t].idf == idf_of(head, t)
}

/// Every term of the entries is valid UTF-8.
pub open spec fn all_valid_utf8(es: Seq<ForwardEntry>) -> bool {
    forall|j: int| 0 <= j < es.len() ==> valid_utf8((#[trigger] es[j]).term)
}

/// The pairs of an index of `q` and an index of `d` at which the two hold
/// one term, among the first `n` terms of `q`, in the order of `q`.
pub open spec fn common_pairs(q: TermMap<QueryWeight>, d: TermMap<DocWeight>, n: int) -> Seq<
    (usize, usize),
>
    decreases n,
{
    if n <= 0 {
        Seq::empty()
    } else if d.has(q.keys@[n - 1]@) {
        common_pairs(q, d, n - 1).push(((n - 1) as usize, d.index_of(q.keys@[n - 1]@) as usize))
    } else {
        common_pairs(q, d, n - 1)
    }
}

/// `done` in front of `rest`, if there is a rest.
pub open spec fn entries_before(done: Seq<ForwardEntry>, rest: Option<Seq<ForwardEntry>>) -> Option<
    Seq<ForwardEntry>,
> {
    match rest {
        Some(es) => Some(done + es),
        None => None,
    }
}

/// The pairs of indices at which the two vectors hold one term.
pub fn common_terms(q: &TermMap<QueryWeight>, d: &TermMap<DocWeight>) -> (common: Vec<
    (usize, usize),
>)
    requires
        q.wf(),
        d.wf(),
    ensures
        common@ == common_pairs(*q, *d, q.keys@.len() as int),
{
    let mut common: Vec<(usize, usize)> = Vec::new();
    let mut i: usize = 0;
    while i < q.keys.len()
        invariant
            q.wf(),
            d.wf(),
            i <= q.keys@.len(),
            common@ == common_pairs(*q, *d, i as int),
        decreases q.keys.len() - i,
    {
        let (found, idx) = d.find(q.keys[i].as_slice());
        if found {
            proof {
                d.lemma_index(idx as int);
            }
            common.push((i, idx));
        }
        i = i + 1;
    }
    common
}

impl Engine {
    /// The entries of the document in the forward index. A document
    /// without an entry in the head of the forward index shows that the
    /// two indexes do not belong together; a record that the content does
    /// not hold to its end, or a term that is not valid UTF-8, that the
    /// forward index is damaged.
    pub open spec fn doc_entries(&self, d: DocId) -> Result<Seq<ForwardEntry>, DecodeError> {
        if !self.forward_index.head@.contains_key(d.key() as u128) {
            Err(DecodeError::Malformed)
        } else {
            match parse_forward_at(
                self.forward_index.index_content_file@,
                self.forward_index.head@[d.key() as u128] as int,
            ) {
                None => Err(DecodeError::UnexpectedEof),
                Some(es) => if all_valid_utf8(es) {
                    Ok(es)
                } else {
                    Err(DecodeError::InvalidUtf8)
                },
            }
        }
    }

    /// The terms of the query, each with the number of times it stands in
    /// the query and with its inverse document frequency, which is zero
    /// for a term that the head does not hold.
    pub fn query_into_vec(&self, query: &Vec<String>) -> (q: TermMap<QueryWeight>)
        requires
            self.wf(),
        ensures
            query_vector_ok(self.inverted_index.head, words_as_terms(query@), q),
    {
        let terms = terms_of(query);
        let ghost words = words_as_terms(query@);
        proof {
            assert(key_views(terms@) =~= words);
        }
        let counts = count_terms(&terms);
        let mut values: Vec<QueryWeight> = Vec::new();
        let mut i: usize = 0;
        while i < counts.keys.len()
            invariant
                self.wf(),
                counts.wf(),
                counts_of(counts, words),
                i <= counts.keys@.len(),
                values@.len() == i,
                forall|k: int|
                    0 <= k < i ==> (#[trigger] values@[k]).count == counts.values@[k]
                        && values@[k].idf == idf_of(self.inverted_index.head, counts.keys@[k]@),
            decreases counts.keys.len() - i,
        {
            let (found, idx) = self.inverted_index.head.find(counts.keys[i].as_slice());
            let idf = if found {
                self.inverted_index.head.values[idx].idf
            } else {
                0
            };
            values.push(QueryWeight { count: counts.values[i], idf });
            i = i + 1;
        }
        let q = TermMap { keys: counts.keys, values };
        proof {
            assert(q.terms() =~= counts.terms());
            assert forall|t: Seq<u8>| #[trigger] q.has(t) <==> counts.has(t) by {}
            assert forall|t: Seq<u8>| #[trigger] q@.contains_key(t) <==> count_in(words, t)
                >= 1 by {
                assert(q@.contains_key(t) <==> q.has(t));
                assert(counts@.contains_key(t) <==> counts.has(t));
            }
            assert forall|t: Seq<u8>| #[trigger] q@.contains_key(t) implies q@[t].count == count_in(
                words,
                t,
            ) && q@[t].idf == idf_of(self.inverted_index.head, t) by {
                let k = q.index_of(t);
                counts.lemma_index(k);
                q.lemma_index(k);
                assert(counts@.contains_key(t));
            }
        }
        q
    }

    /// The terms of the document, each with the weight that the forward
    /// index holds for it and with its inverse document frequency, which
    /// is zero for a term that the head does not hold.
    pub fn doc_into_vec(&self, doc_id: &DocId) -> (r: Result<TermMap<DocWeight>, DecodeError>)
        requires
            self.wf(),
        ensures
            match self.doc_entries(*doc_id) {
                Err(e) => r == Err::<TermMap<DocWeight>, DecodeError>(e),
                Ok(es) => r is Ok && doc_vector_ok(self.inverted_index.head, es, r.unwrap()),
            },
    {
        let key = doc_id.key_u128();
        let offset = match self.forward_index.head.get(&key) {
            Some(offset) => *offset,
            None => {
                return Err(DecodeError::Malformed);
            },
        };
        let content = self.forward_index.index_content_file.as_slice();
        let len = content.len();
        if len < 8 || offset > (len - 8) as u64 {
            return Err(DecodeError::UnexpectedEof);
        }
        let start = offset as usize;
        let words_count = read_u64(content, start);
        let ghost total = parse_entries(content@, start + 8, words_count as nat);
        let ghost mut done: Seq<ForwardEntry> = Seq::empty();
        let mut tf: TermMap<u64> = TermMap::new();
        let mut pos: usize = start + 8;
        let mut valid = true;
        let mut j: u64 = 0;
        proof {
            if total is Some {
                assert(done + total.unwrap() =~= total.unwrap());
            }
        }
        while j < words_count
            invariant
                j <= words_count,
                len == content@.len(),
                pos <= len,
                content@ == self.forward_index.index_content_file@,
                key == doc_id.key(),
                self.forward_index.head@.contains_key(key),
                self.forward_index.head@[key] == start,
                start + 8 <= len,
                words_count == crate::bytes::u64_at(content@, start as int),
                tf.wf(),
                tf@ == doc_weights(done),
                valid == all_valid_utf8(done),
                total == parse_entries(content@, start + 8, words_count as nat),
                total == entries_before(
                    done,
                    parse_entries(content@, pos as int, (words_count - j) as nat),
                ),
            decreases words_count - j,
        {
            if len - pos < 8 {
                return Err(DecodeError::UnexpectedEof);
            }
            let len_word = read_u64(content, pos);
            if len_word > (len - pos - 8) as u64 {
                return Err(DecodeError::UnexpectedEof);
            }
            let wl = len_word as usize;
            if len - pos - 8 - wl < 8 {
                return Err(DecodeError::UnexpectedEof);
            }
            let word = copy_range(content, pos + 8, pos + 8 + wl);
            let tf_val = read_u64(content, pos + 8 + wl);
            let ghost entry = ForwardEntry { term: word@, tf: tf_val };
            let ghost next = pos + 16 + wl;
            proof {
                assert(parse_entry_at(content@, pos as int) == Some((entry, next as int)));
                let rest = parse_entries(content@, next as int, (words_count - j - 1) as nat);
                if rest is Some {
                    assert(done + (seq![entry] + rest.unwrap()) =~= done.push(entry)
                        + rest.unwrap());
                }
                assert(done.push(entry).drop_last() =~= done);
                assert(all_valid_utf8(done.push(entry)) == (all_valid_utf8(done) && valid_utf8(
                    word@,
                ))) by {
                    let grown = done.push(entry);
                    if all_valid_utf8(done) && valid_utf8(word@) {
                        assert forall|k: int| 0 <= k < grown.len() implies valid_utf8(
                            (#[trigger] grown[k]).term,
                        ) by {
                            if k < done.len() {
                                assert(grown[k] == done[k]);
                            }
                        }
                    }
                    if all_valid_utf8(grown) {
                        assert(grown[done.len() as int] == entry);
                        assert forall|k: int| 0 <= k < done.len() implies valid_utf8(
                            (#[trigger] done[k]).term,
                        ) by {
                            assert(grown[k] == done[k]);
                        }
                    }
                }
            }
            if !is_valid_utf8(word.as_slice()) {
                valid = false;
            }
            let ghost before = tf;
            let (found, idx) = tf.find(word.as_slice());
            if found {
                tf.values[idx] = tf_val;
                proof {
                    tf.lemma_replaced(&before, idx as int);
                }
            } else {
                tf.insert(idx, word, tf_val);
            }
            proof {
                done = done.push(entry);
            }
            pos = pos + 16 + wl;
            j = j + 1;
        }
        proof {
            assert(done + Seq::<ForwardEntry>::empty() =~= done);
        }
        if !valid {
            return Err(DecodeError::InvalidUtf8);
        }
        let mut values: Vec<DocWeight> = Vec::new();
        let mut i: usize = 0;
        while i < tf.keys.len()
            invariant
                self.wf(),
                tf.wf(),
                i <= tf.keys@.len(),
                values@.len() == i,
                forall|k: int|
                    0 <= k < i ==> (#[trigger] values@[k]).tf == tf.values@[k] && values@[k].idf
                        == idf_of(self.inverted_index.head, tf.keys@[k]@),
            decreases tf.keys.len() - i,
        {
            let (found, idx) = self.inverted_index.head.find(tf.keys[i].as_slice());
            let idf = if found {
                self.inverted_index.head.values[idx].idf
            } else {
                0
            };
            values.push(DocWeight { tf: tf.values[i], idf });
            i = i + 1;
        }
        let d = TermMap { keys: tf.keys, values };
        proof {
            assert(d.terms() =~= tf.terms());
            assert forall|t: Seq<u8>| #[trigger] d.has(t) <==> tf.has(t) by {}
            assert forall|t: Seq<u8>| #[trigger] d@.contains_key(t) <==> doc_weights(
                done,
            ).contains_key(t) by {
                assert(d@.contains_key(t) <==> d.has(t));
                assert(tf@.contains_key(t) <==> tf.has(t));
            }
            assert forall|t: Seq<u8>| #[trigger] d@.contains_key(t) implies d@[t].tf == doc_weights(
                done,
            )[t] && d@[t].idf == idf_of(self.inverted_index.head, t) by {
                let k = d.index_of(t);
                tf.lemma_index(k);
                d.lemma_index(k);
            }
        }
        Ok(d)
    }
}

} // verus!
