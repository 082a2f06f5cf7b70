//! The forward index: for each document its words with their weights.

use crate::bytes::{be_u64, push_range, push_u64, read_u64, u64_at};
use crate::counts::{
    count_in, count_terms, counts_of, lemma_count_in_bound, lemma_count_in_positive,
};
use crate::db::{doc_id_at, encode_doc_id, push_doc_id, read_doc_id, terms_of, words_as_terms, Doc};
use crate::error::DecodeError;
use crate::forward::{
    encode_entries, encode_entry, encode_forward, entries_fit, entries_len,
    lemma_encode_entries_len, lemma_parse_encoded_forward, lemma_parse_forward_stable,
    parse_forward_at, ForwardEntry,
};
use crate::laws::{
    distinct_ids, lemma_forward_head_roundtrip, lemma_forward_head_size, lemma_forward_record,
};
use crate::term_map::{key_views, TermMap};
use crate::vectors::doc_weights;
use std::collections::HashMap;
use vstd::prelude::*;

verus! {

/// A forward index under construction or in use. The files of the index
/// are byte buffers; `head` maps the key of each document to the place of
/// its record in the content.
pub struct Index {
    pub index_head_file: Vec<u8>,
    pub index_content_file: Vec<u8>,
    pub next_offset: usize,
    pub head: HashMap<u128, u64>,
}

/// The number of bytes of the entries of the words.
pub open spec fn words_len(words: Seq<Seq<u8>>) -> int
    decreases words.len(),
{
    if words.len() == 0 {
        0
    } else {
        words_len(words.drop_last()) + 16 + words.last().len()
    }
}

/// The number of bytes of the records of the documents.
pub open spec fn forward_len(docs: Seq<Doc>) -> int
    decreases docs.len(),
{
    if docs.len() == 0 {
        0
    } else {
        forward_len(docs.drop_last()) + 8 + words_len(words_as_terms(docs.last().words@))
    }
}

/// The head of the documents: each document's key with the place of its
/// record, a later document taking the place of an earlier one with the
/// same identifier.
pub open spec fn forward_head(docs: Seq<Doc>) -> Map<u128, u64>
    decreases docs.len(),
{
    if docs.len() == 0 {
        Map::empty()
    } else {
        forward_head(docs.drop_last()).insert(
            docs.last()._id.key() as u128,
            forward_len(docs.drop_last()) as u64,
        )
    }
}

/// The bytes of the head of the documents: for each document its
/// identifier and the place of its record.
pub open spec fn encode_forward_head(docs: Seq<Doc>) -> Seq<u8>
    decreases docs.len(),
{
    if docs.len() == 0 {
        Seq::empty()
    } else {
        encode_forward_head(docs.drop_last()) + encode_doc_id(docs.last()._id) + be_u64(
            forward_len(docs.drop_last()) as u64,
        )
    }
}

/// The entries of the words, each word with the weight that `tf` holds for
/// it.
pub open spec fn entries_from(tf: TermMap<u64>, words: Seq<Seq<u8>>) -> Seq<ForwardEntry> {
    Seq::new(words.len(), |j: int| ForwardEntry { term: words[j], tf: tf@[words[j]] })
}

/// The entries are those of the words, in order, each with a weight that
/// `f` gives for the number of times the word stands among them.
pub open spec fn weighted<F: Fn(u64) -> u64>(
    f: F,
    words: Seq<Seq<u8>>,
    es: Seq<ForwardEntry>,
) -> bool {
    &&& es.len() == words.len()
    &&& forall|j: int|
        0 <= j < words.len() ==> (#[trigger] es[j]).term == words[j] && call_ensures(
            f,
            (count_in(words, words[j]) as u64,),
            es[j].tf,
        )
}

/// The head entries that `data` holds in its first `20 * n` bytes: for each
/// document its key with the place of its record.
pub open spec fn head_entries(data: Seq<u8>, n: int) -> Map<u128, u64>
    decreases n,
{
    if n <= 0 {
        Map::empty()
    } else {
        head_entries(data, n - 1).insert(
            doc_id_at(data, 20 * (n - 1)).key() as u128,
            u64_at(data, 20 * (n - 1) + 12),
        )
    }
}

/// Entries of the same words have the same number of bytes.
pub proof fn lemma_entries_len(es: Seq<ForwardEntry>, words: Seq<Seq<u8>>)
    requires
        es.len() == words.len(),
        forall|j: int| 0 <= j < words.len() ==> (#[trigger] es[j]).term == words[j],
    ensures
        entries_len(es) == words_len(words),
    decreases es.len(),
{
    if es.len() > 0 {
        assert forall|j: int| 0 <= j < words.drop_last().len() implies (
        #[trigger] es.drop_last()[j]).term == words.drop_last()[j] by {
            assert(es.drop_last()[j] == es[j]);
        }
        lemma_entries_len(es.drop_last(), words.drop_last());
        assert(es[es.len() - 1].term == words[es.len() - 1]);
    }
}

/// Whether an index is stored: its head file and its content file both
/// exist and hold something. Each argument is the length of the file, or
/// `None` where there is no such file.
pub fn is_index_built(head_file: Option<u64>, content_file: Option<u64>) -> (built: bool)
    ensures
        built == (head_file is Some && head_file.unwrap() > 0 && content_file is Some
            && content_file.unwrap() > 0),
{
    match (head_file, content_file) {
        (Some(head_len), Some(content_len)) => head_len > 0 && content_len > 0,
        _ => false,
    }
}

/// An index without documents.
pub fn create_index() -> (index: Index)
    ensures
        index.wf(),
        index.index_head_file@.len() == 0,
        index.index_content_file@.len() == 0,
        index.head@ == Map::<u128, u64>::empty(),
{
    Index {
        index_head_file: Vec::new(),
        index_content_file: Vec::new(),
        next_offset: 0,
        head: HashMap::new(),
    }
}

impl Index {
    /// The next record will stand at the end of the content.
    pub open spec fn wf(&self) -> bool {
        self.next_offset == self.index_content_file@.len()
    }

    /// The index holds the documents `docs` with weights given by `f`: the
    /// content holds the record of each document where the records before
    /// it end, and the head and the head file say so.
    pub open spec fn holds<F: Fn(u64) -> u64>(&self, docs: Seq<Doc>, f: F) -> bool {
        &&& self.wf()
        &&& self.index_content_file@.len() == forward_len(docs)
        &&& self.index_head_file@ == encode_forward_head(docs)
        &&& self.head@ == forward_head(docs)
        &&& forall|k: int|
            0 <= k < docs.len() ==> parse_forward_at(
                self.index_content_file@,
                #[trigger] forward_len(docs.take(k)),
            ) is Some && weighted(
                f,
                words_as_terms(docs[k].words@),
                parse_forward_at(self.index_content_file@, forward_len(docs.take(k))).unwrap(),
            )
    }

    /// The head holds the `k`-th of the documents, and the record at its
    /// offset holds the words of the document in their order, so that the
    /// terms with a weight are the distinct words of the document.
    pub open spec fn records_document(&self, docs: Seq<Doc>, k: int) -> bool {
        let key = docs[k]._id.key() as u128;
        let words = words_as_terms(docs[k].words@);
        &&& self.head@.contains_key(key)
        &&& self.head@[key] == forward_len(docs.take(k))
        &&& parse_forward_at(self.index_content_file@, self.head@[key] as int) is Some
        &&& parse_forward_at(self.index_content_file@, self.head@[key] as int).unwrap().len()
            == words.len()
        &&& forall|j: int|
            0 <= j < words.len() ==> (#[trigger] parse_forward_at(
                self.index_content_file@,
                self.head@[key] as int,
            ).unwrap()[j]).term == words[j]
        &&& forall|t: Seq<u8>| #[trigger]
            doc_weights(
                parse_forward_at(self.index_content_file@, self.head@[key] as int).unwrap(),
            ).contains_key(t) <==> count_in(words, t) >= 1
    }

    /// The head holds each of the documents once, with the place of its
    /// record, and the head file holds twenty bytes for each document.
    pub open spec fn records_documents(&self, docs: Seq<Doc>) -> bool {
        &&& self.head@.len() == docs.len()
        &&& self.index_head_file@.len() == 20 * docs.len()
        &&& forall|k: int| 0 <= k < docs.len() ==> #[trigger] self.records_document(docs, k)
    }

    /// Takes the stored head and content of an index in use. The head must
    /// hold whole entries of twenty bytes; then each entry's document gets
    /// the entry's offset. Otherwise the index is left as it is.
    pub fn load(&mut self, head_file: Vec<u8>, content_file: Vec<u8>) -> (r: Result<
        (),
        DecodeError,
    >)
        ensures
            head_file@.len() % 20 == 0 ==> {
                &&& r is Ok
                &&& final(self).wf()
                &&& final(self).index_head_file@ == head_file@
                &&& final(self).index_content_file@ == content_file@
                &&& final(self).head@ == head_entries(head_file@, head_file@.len() as int / 20)
            },
            head_file@.len() % 20 != 0 ==> {
                &&& r == Err::<(), DecodeError>(DecodeError::UnexpectedEof)
                &&& *final(self) == *old(self)
            },
    {
        if head_file.len() % 20 != 0 {
            return Err(DecodeError::UnexpectedEof);
        }
        let len = head_file.len();
        let count = len / 20;
        let mut head: HashMap<u128, u64> = HashMap::new();
        let mut i: usize = 0;
        while i < count
            invariant
                i <= count,
                count * 20 == len,
                len == head_file@.len(),
                head@ == head_entries(head_file@, i as int),
            decreases count - i,
        {
            let id = read_doc_id(head_file.as_slice(), 20 * i);
            let offset = read_u64(head_file.as_slice(), 20 * i + 12);
            head.insert(id.key_u128(), offset);
            i = i + 1;
        }
        self.next_offset = content_file.len();
        self.index_head_file = head_file;
        self.index_content_file = content_file;
        self.head = head;
        Ok(())
    }

    /// Appends the record of the document to the content and its entry to
    /// the head: for each word, in the order of the words, the word and the
    /// weight that `tf` holds for it.
    pub fn write_doc_to_disk(&mut self, tf: &TermMap<u64>, doc: &Doc)
        requires
            old(self).wf(),
            tf.wf(),
            forall|j: int|
                0 <= j < doc.words@.len() ==> tf@.contains_key(
                    #[trigger] words_as_terms(doc.words@)[j],
                ),
        ensures
            final(self).wf(),
            final(self).index_content_file@ == old(self).index_content_file@ + encode_forward(
                entries_from(*tf, words_as_terms(doc.words@)),
            ),
            final(self).index_head_file@ == old(self).index_head_file@ + encode_doc_id(doc._id)
                + be_u64(old(self).next_offset as u64),
            final(self).head@ == old(self).head@.insert(
                doc._id.key() as u128,
                old(self).next_offset as u64,
            ),
    {
        let terms = terms_of(&doc.words);
        let ghost words = words_as_terms(doc.words@);
        let ghost es = entries_from(*tf, words);
        self.head.insert(doc._id.key_u128(), self.next_offset as u64);
        push_doc_id(&mut self.index_head_file, doc._id);
        push_u64(&mut self.index_head_file, self.next_offset as u64);
        push_u64(&mut self.index_content_file, terms.len() as u64);
        let ghost base = self.index_content_file@;
        let mut j: usize = 0;
        while j < terms.len()
            invariant
                j <= terms@.len(),
                tf.wf(),
                terms@.len() == words.len(),
                words == words_as_terms(doc.words@),
                es == entries_from(*tf, words),
                forall|i: int| 0 <= i < terms@.len() ==> (#[trigger] terms@[i])@ == words[i],
                forall|i: int| 0 <= i < words.len() ==> tf@.contains_key(#[trigger] words[i]),
                self.index_content_file@ == base + encode_entries(es.take(j as int)),
                self.index_head_file@ == old(self).index_head_file@ + encode_doc_id(doc._id)
                    + be_u64(old(self).next_offset as u64),
                self.head@ == old(self).head@.insert(
                    doc._id.key() as u128,
                    old(self).next_offset as u64,
                ),
            decreases terms.len() - j,
        {
            let word = &terms[j];
            let ghost before = self.index_content_file@;
            let (_, idx) = tf.find(word.as_slice());
            assert(tf@.contains_key(words[j as int]));
            let weight = tf.values[idx];
            push_u64(&mut self.index_content_file, word.len() as u64);
            push_range(&mut self.index_content_file, word.as_slice(), 0, word.len());
            push_u64(&mut self.index_content_file, weight);
            proof {
                assert(word@.subrange(0, word@.len() as int) =~= word@);
                assert(es.take(j + 1).drop_last() =~= es.take(j as int));
                assert(es.take(j + 1).last() == es[j as int]);
                assert(self.index_content_file@ =~= before + encode_entry(es[j as int]));
                assert(self.index_content_file@ =~= base + encode_entries(es.take(j + 1)));
            }
            j = j + 1;
        }
        proof {
            assert(es.take(j as int) =~= es);
            assert(self.index_content_file@ =~= old(self).index_content_file@ + encode_forward(es));
        }
        self.next_offset = self.index_content_file.len();
    }

    /// Builds the index from the documents: each document gets a record of
    /// its words, each word with the weight that `tf_weight` gives for the
    /// number of times the word stands in the document.
    pub fn build<F: Fn(u64) -> u64>(&mut self, docs: &Vec<Doc>, tf_weight: F)
        requires
            old(self).wf(),
            old(self).index_content_file@.len() == 0,
            old(self).index_head_file@.len() == 0,
            old(self).head@ == Map::<u128, u64>::empty(),
            forall|c: u64| call_requires(tf_weight, (c,)),
        ensures
            final(self).holds(docs@, tf_weight),
            distinct_ids(docs@) ==> final(self).records_documents(docs@),
    {
        let mut k: usize = 0;
        proof {
            assert(docs@.take(0) =~= Seq::<Doc>::empty());
            assert(self.index_head_file@ =~= encode_forward_head(docs@.take(0)));
        }
        while k < docs.len()
            invariant
                k <= docs@.len(),
                forall|c: u64| call_requires(tf_weight, (c,)),
                self.holds(docs@.take(k as int), tf_weight),
            decreases docs.len() - k,
        {
            let doc = &docs[k];
            let terms = terms_of(&doc.words);
            let ghost words = words_as_terms(doc.words@);
            proof {
                assert(key_views(terms@) =~= words);
            }
            let counts = count_terms(&terms);
            let tf = Index::weigh(counts, &tf_weight, Ghost(words));
            let ghost before = *self;
            let ghost seen = docs@.take(k as int);
            proof {
                assert forall|j: int| 0 <= j < doc.words@.len() implies tf@.contains_key(
                    #[trigger] words[j],
                ) by {
                    lemma_count_in_positive(words, j);
                }
            }
            self.write_doc_to_disk(&tf, doc);
            proof {
                let es = entries_from(tf, words);
                let grown = docs@.take(k + 1);
                assert(grown.drop_last() =~= seen);
                assert(grown.last() == *doc);
                lemma_entries_len(es, words);
                lemma_encode_entries_len(es);
                assert(doc.words.len() == doc.words@.len());
                assert(entries_fit(es)) by {
                    assert forall|j: int| 0 <= j < es.len() implies (#[trigger] es[j]).term.len()
                        <= u64::MAX by {
                        assert(terms@[j].len() == terms@[j]@.len());
                        assert(terms@[j]@ == words[j]);
                    }
                }
                let data = self.index_content_file@;
                let p = before.index_content_file@.len() as int;
                assert(data.subrange(p, p + 8 + entries_len(es)) =~= encode_forward(es));
                lemma_parse_encoded_forward(data, p, es);
                assert(weighted(tf_weight, words, es)) by {
                    assert forall|j: int| 0 <= j < words.len() implies (#[trigger] es[j]).term
                        == words[j] && call_ensures(
                        tf_weight,
                        (count_in(words, words[j]) as u64,),
                        es[j].tf,
                    ) by {
                        lemma_count_in_positive(words, j);
                        lemma_count_in_bound(words, words[j]);
                    }
                }
                assert forall|i: int| 0 <= i < grown.len() implies parse_forward_at(
                    data,
                    #[trigger] forward_len(grown.take(i)),
                ) is Some && weighted(
                    tf_weight,
                    words_as_terms(grown[i].words@),
                    parse_forward_at(data, forward_len(grown.take(i))).unwrap(),
                ) by {
                    if i < k {
                        assert(grown.take(i) =~= seen.take(i));
                        assert(grown[i] == seen[i]);
                        lemma_parse_forward_stable(
                            before.index_content_file@,
                            encode_forward(es),
                            forward_len(seen.take(i)),
                        );
                    } else {
                        assert(grown.take(i) =~= seen);
                    }
                }
            }
            k = k + 1;
        }
        proof {
            assert(docs@.take(k as int) =~= docs@);
            assert(self.index_content_file.len() == self.index_content_file@.len());
            if distinct_ids(docs@) {
                lemma_forward_head_size(docs@);
                lemma_forward_head_roundtrip(docs@);
                assert forall|i: int| 0 <= i < docs@.len() implies self.records_document(
                    docs@,
                    i,
                ) by {
                    lemma_forward_record(*self, docs@, tf_weight, i);
                }
            }
        }
    }

    /// The weights of the counted terms: for each term what `tf_weight`
    /// gives for its count.
    fn weigh<F: Fn(u64) -> u64>(
        counts: TermMap<u64>,
        tf_weight: &F,
        Ghost(words): Ghost<Seq<Seq<u8>>>,
    ) -> (tf: TermMap<u64>)
        requires
            counts_of(counts, words),
            forall|c: u64| call_requires(*tf_weight, (c,)),
        ensures
            tf.wf(),
            forall|t: Seq<u8>| #[trigger] tf@.contains_key(t) <==> count_in(words, t) >= 1,
            forall|t: Seq<u8>| #[trigger]
                tf@.contains_key(t) ==> call_ensures(
                    *tf_weight,
                    (count_in(words, t) as u64,),
                    tf@[t],
                ),
    {
        let mut weights: Vec<u64> = Vec::new();
        let mut i: usize = 0;
        while i < counts.values.len()
            invariant
                counts.wf(),
                i <= counts.values@.len(),
                weights@.len() == i,
                forall|c: u64| call_requires(*tf_weight, (c,)),
                forall|k: int|
                    0 <= k < i ==> call_ensures(
                        *tf_weight,
                        (counts.values@[k],),
                        #[trigger] weights@[k],
                    ),
            decreases counts.values.len() - i,
        {
            let w = tf_weight(counts.values[i]);
            weights.push(w);
            i = i + 1;
        }
        let tf = TermMap { keys: counts.keys, values: weights };
        proof {
            assert(tf.terms() =~= counts.terms());
            assert forall|t: Seq<u8>| #[trigger] tf.has(t) <==> counts.has(t) by {}
            assert forall|t: Seq<u8>| #[trigger] tf@.contains_key(t) <==> count_in(words, t)
                >= 1 by {
                assert(tf@.contains_key(t) <==> tf.has(t));
                assert(counts@.contains_key(t) <==> counts.has(t));
            }
            assert forall|t: Seq<u8>| #[trigger] tf@.contains_key(t) implies call_ensures(
                *tf_weight,
                (count_in(words, t) as u64,),
                tf@[t],
            ) by {
                let k = tf.index_of(t);
                counts.lemma_index(k);
                tf.lemma_index(k);
                assert(counts@.contains_key(t));
            }
        }
        tf
    }
}

} // verus!
