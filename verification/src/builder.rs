//! Building the inverted index from the documents of a collection.

use crate::block::{
    add_posting, block_matches, block_records, lemma_block_records, lemma_pair_count_at,
};
use crate::bytes::{copy_range, u64_at};
use crate::corpus::{
    ascending_docs, ascending_tokens, chunk_state, chunks, doc_tokens, hit, lemma_chunks_exact,
    lemma_token_source, sum_hits, tokens, Token,
};
use crate::counts::{count_in, count_terms, counts_of};
use crate::db::{terms_of, words_as_terms, Doc, DocId};
use crate::inverted_index::{
    block_views, blocks_parse, merged_blocks, parsed_blocks, HeadValue, InvertedIndex,
};
use crate::laws::{
    docs_with, lemma_docs_with, lemma_offset_frames_term, lemma_posting_list_is_exact,
    lemma_posting_list_len_is_df,
};
use crate::offsets::{encode_head, last_offset, posting_list_at, terms_valid};
use crate::postings::{
    fifo_merge, lemma_ascending_strict, lemma_fifo_merge, lemma_occ_positive, occ, pair_count,
    queue_count, queue_wf, records_ordered, records_wf, strictly_ascending_ids,
};
use crate::record::{lemma_records_roundtrip, parse_records, Record};
use crate::term_map::{key_views, TermMap};
use vstd::prelude::*;

verus! {

/// The document holds the term.
pub open spec fn doc_has(d: Doc, t: Seq<u8>) -> bool {
    count_in(words_as_terms(d.words@), t) >= 1
}

/// The number of documents that hold the term.
pub open spec fn doc_freq(docs: Seq<Doc>, t: Seq<u8>) -> nat
    decreases docs.len(),
{
    if docs.len() == 0 {
        0
    } else {
        doc_freq(docs.drop_last(), t) + if doc_has(docs.last(), t) {
            1nat
        } else {
            0nat
        }
    }
}

/// The head holds the terms of the documents, each with the number of
/// documents that hold it.
pub open spec fn head_counts(head: TermMap<HeadValue>, docs: Seq<Doc>) -> bool {
    &&& head.wf()
    &&& forall|t: Seq<u8>| #[trigger] head@.contains_key(t) <==> doc_freq(docs, t) >= 1
    &&& forall|t: Seq<u8>| #[trigger] head@.contains_key(t) ==> head@[t].df == doc_freq(docs, t)
}

/// No entry of the head has an offset yet.
pub open spec fn head_blank(head: TermMap<HeadValue>) -> bool {
    forall|i: int| 0 <= i < head.values@.len() ==> (#[trigger] head.values@[i]).offset == 0
}

/// The bytes are those of a block that was filled from the occurrences
/// `ts`: well-formed records that hold a document once for a term where the
/// term occurs in it among `ts`, and not at all where it does not.
pub open spec fn block_counts(block: Seq<u8>, ts: Seq<Token>) -> bool {
    &&& parse_records(block) is Some
    &&& records_wf(parse_records(block).unwrap())
    &&& forall|t: Seq<u8>, d: DocId| #[trigger]
        pair_count(parse_records(block).unwrap(), t, d) == hit(ts, t, d)
}

/// The content holds well-formed records in which a document stands once
/// for a term where the document holds the term, and not at all where it
/// does not.
pub open spec fn content_counts(content: Seq<u8>, docs: Seq<Doc>) -> bool {
    &&& parse_records(content) is Some
    &&& records_wf(parse_records(content).unwrap())
    &&& forall|t: Seq<u8>, d: DocId| #[trigger]
        pair_count(parse_records(content).unwrap(), t, d) == hit(tokens(docs), t, d)
}

/// The blocks are those of the occurrences `cs`, block by block.
pub open spec fn blocks_count(blocks: Seq<Vec<u8>>, cs: Seq<Seq<Token>>) -> bool {
    &&& blocks.len() == cs.len()
    &&& forall|k: int| 0 <= k < cs.len() ==> block_counts((#[trigger] blocks[k])@, cs[k])
}

/// No more documents hold a term than there are documents.
pub proof fn lemma_doc_freq_bound(docs: Seq<Doc>, t: Seq<u8>)
    ensures
        doc_freq(docs, t) <= docs.len(),
    decreases docs.len(),
{
    if docs.len() > 0 {
        lemma_doc_freq_bound(docs.drop_last(), t);
    }
}

/// What the blocks of a queue count together is in how many of the
/// occurrence blocks a pair occurs.
pub proof fn lemma_queue_hits(blocks: Seq<Vec<u8>>, cs: Seq<Seq<Token>>, t: Seq<u8>, d: DocId)
    requires
        blocks_count(blocks, cs),
    ensures
        queue_count(parsed_blocks(blocks, 0), t, d) == sum_hits(cs, t, d),
        queue_wf(parsed_blocks(blocks, 0)),
        blocks_parse(blocks),
    decreases cs.len(),
{
    let q = parsed_blocks(blocks, 0);
    if cs.len() > 0 {
        let front = blocks.drop_last();
        assert(blocks_count(front, cs.drop_last())) by {
            assert forall|k: int| 0 <= k < cs.drop_last().len() implies block_counts(
                (#[trigger] front[k])@,
                cs.drop_last()[k],
            ) by {
                assert(block_counts(blocks[k]@, cs[k]));
            }
        }
        lemma_queue_hits(front, cs.drop_last(), t, d);
        assert(q.drop_last() =~= parsed_blocks(front, 0));
        assert(block_counts(blocks[blocks.len() - 1]@, cs[cs.len() - 1]));
        assert(q.last() == parse_records(blocks.last()@).unwrap());
    }
    assert forall|k: int| 0 <= k < q.len() implies records_ordered(#[trigger] q[k]) by {
        assert(block_counts(blocks[k]@, cs[k]));
    }
    assert forall|k: int| 0 <= k < blocks.len() implies parse_records((#[trigger] blocks[k])@)
        is Some by {
        assert(block_counts(blocks[k]@, cs[k]));
    }
}

impl InvertedIndex {
    /// The index is being filled: the blocks of the occurrences `full` are
    /// written, and `block` holds the occurrences `cur`, all in documents
    /// with identifiers up to `hi`.
    pub open spec fn filling(
        &self,
        block: TermMap<Vec<DocId>>,
        full: Seq<Seq<Token>>,
        cur: Seq<Token>,
        hi: int,
    ) -> bool {
        &&& self.cur_map_size == (if cur.len() <= usize::MAX {
            cur.len() as int
        } else {
            usize::MAX as int
        })
        &&& block_matches(block, cur)
        &&& ascending_tokens(cur)
        &&& forall|i: int| 0 <= i < cur.len() ==> (#[trigger] cur[i]).id.key() <= hi
        &&& self.count_of_written_blocks == full.len()
        &&& blocks_count(self.blocks_directory@, full)
    }

    /// Nothing but the blocks, their number and the size of the block that
    /// is being filled differs between `self` and `other`.
    pub open spec fn same_files(&self, other: &InvertedIndex) -> bool {
        &&& self.index_head_file == other.index_head_file
        &&& self.index_content_file == other.index_content_file
        &&& self.max_map_size == other.max_map_size
        &&& self.head == other.head
    }

    /// Writes `block` as the next block and empties it.
    fn flush_block(&mut self, block: &mut TermMap<Vec<DocId>>, Ghost(cur): Ghost<Seq<Token>>)
        requires
            block_matches(*old(block), cur),
            ascending_tokens(cur),
        ensures
            final(self).same_files(old(self)),
            final(self).cur_map_size == 0,
            final(self).count_of_written_blocks == final(self).blocks_directory@.len(),
            final(self).blocks_directory@.len() == old(self).blocks_directory@.len() + 1,
            final(self).blocks_directory@.drop_last() == old(self).blocks_directory@,
            block_counts(final(self).blocks_directory@.last()@, cur),
            block_matches(*final(block), Seq::<Token>::empty()),
    {
        let mut taken: TermMap<Vec<DocId>> = TermMap::new();
        std::mem::swap(block, &mut taken);
        proof {
            lemma_block_records(taken, cur);
            lemma_records_roundtrip(block_records(taken));
        }
        let bytes = InvertedIndex::write_block_to_disk(taken);
        self.blocks_directory.push(bytes);
        self.count_of_written_blocks = self.blocks_directory.len();
        self.cur_map_size = 0;
        proof {
            assert(self.blocks_directory@.drop_last() =~= old(self).blocks_directory@);
            assert forall|t: Seq<u8>| #[trigger] block.has(t) <==> crate::corpus::holds_term(
                Seq::<Token>::empty(),
                t,
            ) by {}
        }
    }

    /// Adds one occurrence of `term` in document `id` to the block that is
    /// being filled.
    fn push_token(
        &mut self,
        block: &mut TermMap<Vec<DocId>>,
        term: &Vec<u8>,
        id: DocId,
        Ghost(full): Ghost<Seq<Seq<Token>>>,
        Ghost(cur): Ghost<Seq<Token>>,
        Ghost(hi): Ghost<int>,
    )
        requires
            old(self).filling(*old(block), full, cur, hi),
            hi <= id.key(),
        ensures
            final(self).same_files(old(self)),
            final(self).blocks_directory == old(self).blocks_directory,
            final(self).filling(*final(block), full, cur.push(Token { term: term@, id }), id.key()),
    {
        let ghost tok = Token { term: term@, id };
        let ghost grown = cur.push(tok);
        proof {
            assert(ascending_tokens(grown)) by {
                assert forall|i: int, j: int| 0 <= i < j < grown.len() implies (
                #[trigger] grown[i]).id.key() <= (#[trigger] grown[j]).id.key() by {
                    assert(grown[i] == cur[i]);
                    if j < cur.len() {
                        assert(grown[j] == cur[j]);
                    }
                }
            }
            assert forall|i: int| 0 <= i < grown.len() implies (#[trigger] grown[i]).id.key()
                <= id.key() by {
                if i < cur.len() {
                    assert(grown[i] == cur[i]);
                }
            }
        }
        add_posting(block, term, id);
        if self.cur_map_size < usize::MAX {
            self.cur_map_size = self.cur_map_size + 1;
        }
    }

    /// Counts one document for each term that it holds.
    fn count_document(
        &mut self,
        terms: &Vec<Vec<u8>>,
        Ghost(prev): Ghost<Seq<Doc>>,
        Ghost(doc): Ghost<Doc>,
    )
        requires
            head_counts(old(self).head, prev),
            head_blank(old(self).head),
            key_views(terms@) == words_as_terms(doc.words@),
            prev.len() < usize::MAX,
        ensures
            head_counts(final(self).head, prev.push(doc)),
            head_blank(final(self).head),
            final(self).index_head_file == old(self).index_head_file,
            final(self).index_content_file == old(self).index_content_file,
            final(self).max_map_size == old(self).max_map_size,
            final(self).cur_map_size == old(self).cur_map_size,
            final(self).count_of_written_blocks == old(self).count_of_written_blocks,
            final(self).blocks_directory == old(self).blocks_directory,
    {
        let used = count_terms(terms);
        let ghost words = key_views(terms@);
        let mut i: usize = 0;
        while i < used.keys.len()
            invariant
                used.wf(),
                counts_of(used, words),
                words == words_as_terms(doc.words@),
                prev.len() < usize::MAX,
                i <= used.keys@.len(),
                self.head.wf(),
                head_blank(self.head),
                forall|t: Seq<u8>| #[trigger]
                    self.head@.contains_key(t) <==> doc_freq(prev, t) >= 1 || seen(
                        used,
                        t,
                        i as int,
                    ),
                forall|t: Seq<u8>| #[trigger]
                    self.head@.contains_key(t) ==> self.head@[t].df == doc_freq(prev, t) + if seen(
                        used,
                        t,
                        i as int,
                    ) {
                        1nat
                    } else {
                        0nat
                    },
                self.index_head_file == old(self).index_head_file,
                self.index_content_file == old(self).index_content_file,
                self.max_map_size == old(self).max_map_size,
                self.cur_map_size == old(self).cur_map_size,
                self.count_of_written_blocks == old(self).count_of_written_blocks,
                self.blocks_directory == old(self).blocks_directory,
            decreases used.keys.len() - i,
        {
            let word = &used.keys[i];
            let ghost before = self.head;
            proof {
                lemma_doc_freq_bound(prev, word@);
                lemma_seen_step(used, i as int);
            }
            let (found, idx) = self.head.find(word.as_slice());
            if found {
                let entry = self.head.values[idx];
                self.head.values[idx] = HeadValue {
                    offset: entry.offset,
                    df: entry.df + 1,
                    idf: entry.idf,
                };
                proof {
                    self.head.lemma_replaced(&before, idx as int);
                }
            } else {
                let key = copy_range(word.as_slice(), 0, word.len());
                proof {
                    assert(key@ =~= word@);
                }
                self.head.insert(idx, key, HeadValue { offset: 0, df: 1, idf: 0 });
                proof {
                    assert forall|k: int| 0 <= k < self.head.values@.len() implies (
                    #[trigger] self.head.values@[k]).offset == 0 by {
                        if k < idx {
                            assert(self.head.values@[k] == before.values@[k]);
                        } else if k > idx {
                            assert(self.head.values@[k] == before.values@[k - 1]);
                        }
                    }
                }
            }
            i = i + 1;
        }
        proof {
            let all = prev.push(doc);
            assert(all.drop_last() =~= prev);
            assert forall|t: Seq<u8>| seen(used, t, i as int) <==> doc_has(doc, t) by {
                if doc_has(doc, t) {
                    assert(used@.contains_key(t));
                    let k = used.index_of(t);
                    assert(used.keys@[k]@ == t);
                }
                if seen(used, t, i as int) {
                    let k = choose|k: int| 0 <= k < i && #[trigger] used.keys@[k]@ == t;
                    used.lemma_index(k);
                }
            }
        }
    }

    /// Nothing has been added to the index yet.
    pub open spec fn fresh(&self) -> bool {
        &&& self.blocks_directory@.len() == 0
        &&& self.count_of_written_blocks == 0
        &&& self.cur_map_size == 0
        &&& self.head.wf()
        &&& self.head.keys@.len() == 0
    }

    /// The index holds the documents `docs`: the content holds well-formed
    /// records in which a document stands once for a term where it holds
    /// the term, and not at all where it does not; the head holds each
    /// term of the documents with the number of documents that hold it and
    /// with the place of its posting list in the content; and the head
    /// file holds the entries of the head.
    pub open spec fn indexes(&self, docs: Seq<Doc>) -> bool {
        let recs = parse_records(self.index_content_file@);
        &&& content_counts(self.index_content_file@, docs)
        &&& head_counts(self.head, docs)
        &&& forall|i: int|
            0 <= i < self.head.keys@.len() ==> (#[trigger] self.head.values@[i]).offset == (
            match last_offset(recs.unwrap(), self.head.keys@[i]@) {
                Some(o) => o,
                None => 0,
            })
        &&& self.index_head_file@ == encode_head(self.head, self.head.keys@.len() as int)
    }

    /// The offset of each term of the head stands in the content behind
    /// the term, which stands behind its length. The posting list that is
    /// read at the offset holds the identifiers of the documents that hold
    /// the term, in ascending order, each of them once and no others; it
    /// is as long as the number of documents that the head holds for the
    /// term.
    pub open spec fn lists_documents(&self, docs: Seq<Doc>) -> bool {
        forall|i: int|
            0 <= i < self.head.keys@.len() ==> {
                &&& 8 + self.head.keys@[i]@.len() <= (#[trigger] self.head.values@[i]).offset
                &&& self.index_content_file@.subrange(
                    self.head.values@[i].offset - self.head.keys@[i]@.len(),
                    self.head.values@[i].offset as int,
                ) == self.head.keys@[i]@
                &&& u64_at(
                    self.index_content_file@,
                    self.head.values@[i].offset - self.head.keys@[i]@.len() - 8,
                ) == self.head.keys@[i]@.len()
                &&& posting_list_at(
                    self.index_content_file@,
                    self.head.values@[i].offset as int,
                ) == Some(docs_with(docs, self.head.keys@[i]@))
                &&& strictly_ascending_ids(docs_with(docs, self.head.keys@[i]@))
                &&& docs_with(docs, self.head.keys@[i]@).len() == self.head.values@[i].df
                &&& self.head.values@[i].df >= 1
            }
    }

    /// The blocks of the index are those of the documents `docs`: first a
    /// block for each part of the stream of occurrences, then what merging
    /// them has added.
    pub open spec fn holds_blocks(&self, docs: Seq<Doc>) -> bool {
        let cs = chunks(docs, self.max_map_size as int);
        &&& cs.len() <= self.blocks_directory@.len()
        &&& blocks_count(self.blocks_directory@.take(cs.len() as int), cs)
        &&& block_views(self.blocks_directory@) == merged_blocks(
            block_views(self.blocks_directory@.take(cs.len() as int)),
            0,
        )
    }

    /// Reads the documents word by word into blocks, writes a block once
    /// it is full at the end of a document and the last one as it is, and
    /// counts for each term the documents that hold it.
    fn fill_blocks(&mut self, docs: &Vec<Doc>)
        requires
            old(self).fresh(),
            ascending_docs(docs@),
        ensures
            final(self).index_head_file == old(self).index_head_file,
            final(self).index_content_file == old(self).index_content_file,
            final(self).max_map_size == old(self).max_map_size,
            final(self).count_of_written_blocks == final(self).blocks_directory@.len(),
            final(self).cur_map_size == 0,
            blocks_count(
                final(self).blocks_directory@,
                chunks(docs@, final(self).max_map_size as int),
            ),
            head_counts(final(self).head, docs@),
            head_blank(final(self).head),
    {
        let mut inverted_idx_block: TermMap<Vec<DocId>> = TermMap::new();
        let ghost m = self.max_map_size as int;
        let ghost mut hi: int = if docs@.len() > 0 {
            docs@[0]._id.key()
        } else {
            0
        };
        let ghost mut full: Seq<Seq<Token>> = Seq::empty();
        let ghost mut cur: Seq<Token> = Seq::empty();
        let mut k: usize = 0;
        proof {
            assert(docs@.take(0) =~= Seq::<Doc>::empty());
            assert forall|t: Seq<u8>| #[trigger] inverted_idx_block.has(t)
                <==> crate::corpus::holds_term(Seq::<Token>::empty(), t) by {}
            assert(self.head@ =~= Map::<Seq<u8>, HeadValue>::empty()) by {
                assert forall|t: Seq<u8>| !self.head.has(t) by {}
            }
        }
        while k < docs.len()
            invariant
                k <= docs@.len(),
                ascending_docs(docs@),
                m == self.max_map_size,
                self.index_head_file == old(self).index_head_file,
                self.index_content_file == old(self).index_content_file,
                self.max_map_size == old(self).max_map_size,
                full == chunk_state(docs@.take(k as int), m).0,
                cur == chunk_state(docs@.take(k as int), m).1,
                self.filling(inverted_idx_block, full, cur, hi),
                k < docs@.len() ==> hi <= docs@[k as int]._id.key(),
                head_counts(self.head, docs@.take(k as int)),
                head_blank(self.head),
            decreases docs.len() - k,
        {
            let doc = &docs[k];
            let terms = terms_of(&doc.words);
            let ghost these = doc_tokens(*doc);
            let ghost mut h: int = hi;
            let mut j: usize = 0;
            proof {
                assert(cur + these.take(0) =~= cur);
            }
            while j < terms.len()
                invariant
                    j <= terms@.len(),
                    terms@.len() == these.len(),
                    these == doc_tokens(*doc),
                    forall|i: int|
                        0 <= i < terms@.len() ==> (#[trigger] terms@[i])@ == crate::db::word_bytes(
                            doc.words@[i],
                        ),
                    m == self.max_map_size,
                    self.index_head_file == old(self).index_head_file,
                    self.index_content_file == old(self).index_content_file,
                    self.max_map_size == old(self).max_map_size,
                    self.filling(inverted_idx_block, full, cur + these.take(j as int), h),
                    h <= doc._id.key(),
                    head_counts(self.head, docs@.take(k as int)),
                    head_blank(self.head),
                decreases terms.len() - j,
            {
                let ghost ts = cur + these.take(j as int);
                self.push_token(
                    &mut inverted_idx_block,
                    &terms[j],
                    doc._id,
                    Ghost(full),
                    Ghost(ts),
                    Ghost(h),
                );
                proof {
                    assert(these[j as int] == (Token { term: terms@[j as int]@, id: doc._id }));
                    assert(ts.push(these[j as int]) =~= cur + these.take(j + 1));
                    h = doc._id.key();
                }
                j = j + 1;
            }
            let ghost grown = cur + these;
            proof {
                assert(these.take(j as int) =~= these);
                assert(docs@.take(k + 1).drop_last() =~= docs@.take(k as int));
                assert(docs@.take(k + 1).last() == *doc);
                assert(key_views(terms@) =~= words_as_terms(doc.words@));
            }
            if self.cur_map_size > 0 && self.cur_map_size >= self.max_map_size {
                let ghost before = self.blocks_directory@;
                self.flush_block(&mut inverted_idx_block, Ghost(grown));
                proof {
                    let now = self.blocks_directory@;
                    let full2 = full.push(grown);
                    assert forall|i: int| 0 <= i < full2.len() implies block_counts(
                        (#[trigger] now[i])@,
                        full2[i],
                    ) by {
                        if i < full.len() {
                            assert(now.drop_last()[i] == now[i]);
                            assert(block_counts(before[i]@, full[i]));
                        }
                    }
                    full = full2;
                    cur = Seq::empty();
                }
            } else {
                proof {
                    cur = grown;
                }
            }
            self.count_document(&terms, Ghost(docs@.take(k as int)), Ghost(*doc));
            proof {
                assert(docs@.take(k as int).push(*doc) =~= docs@.take(k + 1));
                hi = doc._id.key();
            }
            k = k + 1;
        }
        proof {
            assert(docs@.take(k as int) =~= docs@);
        }
        if inverted_idx_block.keys.len() > 0 {
            let ghost blocks = self.blocks_directory@;
            proof {
                if cur.len() == 0 {
                    assert(inverted_idx_block.has(inverted_idx_block.keys@[0]@));
                }
            }
            self.flush_block(&mut inverted_idx_block, Ghost(cur));
            proof {
                let now = self.blocks_directory@;
                let all = full.push(cur);
                assert forall|i: int| 0 <= i < all.len() implies block_counts(
                    (#[trigger] now[i])@,
                    all[i],
                ) by {
                    if i < full.len() {
                        assert(now.drop_last()[i] == now[i]);
                        assert(block_counts(blocks[i]@, full[i]));
                    }
                }
            }
        } else {
            proof {
                if cur.len() > 0 {
                    assert(crate::corpus::holds_term(cur, cur[0].term));
                    assert(inverted_idx_block.has(cur[0].term));
                }
            }
        }
    }

    /// Builds the index from the documents, which come in the order of
    /// their identifiers: fills and writes the blocks, merges them into the
    /// content, gives each term of the head its inverse document frequency,
    /// computed by `idf` from the number of documents that hold the term
    /// and `count_of_documents`, and its offset, and writes the head.
    pub fn build<F: Fn(u64, u64) -> u64>(
        &mut self,
        docs: &Vec<Doc>,
        count_of_documents: u64,
        idf: F,
    )
        requires
            old(self).fresh(),
            ascending_docs(docs@),
            forall|df: u64, n: u64| call_requires(idf, (df, n)),
        ensures
            final(self).max_map_size == old(self).max_map_size,
            final(self).cur_map_size == 0,
            final(self).count_of_written_blocks == final(self).blocks_directory@.len(),
            final(self).indexes(docs@),
            final(self).lists_documents(docs@),
            final(self).holds_blocks(docs@),
            forall|i: int|
                0 <= i < final(self).head.keys@.len() ==> call_ensures(
                    idf,
                    ((#[trigger] final(self).head.values@[i]).df, count_of_documents),
                    final(self).head.values@[i].idf,
                ),
    {
        self.fill_blocks(docs);
        let ghost cs = chunks(docs@, self.max_map_size as int);
        let ghost blocks = self.blocks_directory@;
        proof {
            lemma_queue_hits(blocks, cs, Seq::empty(), DocId { hi: 0, lo: 0 });
        }
        let merged = self.merge_blocks();
        if merged.is_err() {
            assert(false);
        }
        if self.count_of_written_blocks > 0 {
            let last = self.count_of_written_blocks - 1;
            self.index_content_file = copy_range(
                self.blocks_directory[last].as_slice(),
                0,
                self.blocks_directory[last].len(),
            );
            proof {
                assert(self.index_content_file@ =~= self.blocks_directory@.last()@);
            }
        } else {
            self.index_content_file = Vec::new();
        }
        proof {
            lemma_merged_counts(blocks, docs@, self.max_map_size as int, self.index_content_file@);
            lemma_content_terms(self.index_content_file@, docs@);
        }
        let mut i: usize = 0;
        while i < self.head.keys.len()
            invariant
                i <= self.head.keys@.len(),
                forall|df: u64, n: u64| call_requires(idf, (df, n)),
                self.max_map_size == old(self).max_map_size,
                self.cur_map_size == 0,
                self.count_of_written_blocks == self.blocks_directory@.len(),
                self.holds_blocks(docs@),
                content_counts(self.index_content_file@, docs@),
                terms_valid(parse_records(self.index_content_file@).unwrap()),
                head_counts(self.head, docs@),
                head_blank(self.head),
                forall|k: int|
                    0 <= k < i ==> call_ensures(
                        idf,
                        ((#[trigger] self.head.values@[k]).df, count_of_documents),
                        self.head.values@[k].idf,
                    ),
            decreases self.head.keys.len() - i,
        {
            let ghost before = self.head;
            let entry = self.head.values[i];
            let weight = idf(entry.df, count_of_documents);
            self.head.values[i] = HeadValue { offset: entry.offset, df: entry.df, idf: weight };
            proof {
                self.head.lemma_replaced(&before, i as int);
                before.lemma_index(i as int);
            }
            i = i + 1;
        }
        let ghost before = self.head;
        let ghost blocks_before = self.blocks_directory;
        let set = self.set_offsets();
        if set.is_err() {
            assert(false);
        }
        assert(self.blocks_directory@ == blocks_before@);
        proof {
            assert(self.head.terms() =~= before.terms());
            assert forall|t: Seq<u8>| #[trigger] self.head@.contains_key(t) implies self.head@[t].df
                == before@[t].df by {
                before.lemma_index(before.index_of(t));
            }
            assert forall|t: Seq<u8>| #[trigger]
                self.head@.contains_key(t) <==> before@.contains_key(t) by {}
        }
        self.write_head_to_disk();
        proof {
            assert forall|i: int| 0 <= i < self.head.keys@.len() implies {
                &&& 8 + self.head.keys@[i]@.len() <= (#[trigger] self.head.values@[i]).offset
                &&& self.index_content_file@.subrange(
                    self.head.values@[i].offset - self.head.keys@[i]@.len(),
                    self.head.values@[i].offset as int,
                ) == self.head.keys@[i]@
                &&& u64_at(
                    self.index_content_file@,
                    self.head.values@[i].offset - self.head.keys@[i]@.len() - 8,
                ) == self.head.keys@[i]@.len()
                &&& posting_list_at(
                    self.index_content_file@,
                    self.head.values@[i].offset as int,
                ) == Some(docs_with(docs@, self.head.keys@[i]@))
                &&& strictly_ascending_ids(docs_with(docs@, self.head.keys@[i]@))
                &&& docs_with(docs@, self.head.keys@[i]@).len() == self.head.values@[i].df
                &&& self.head.values@[i].df >= 1
            } by {
                lemma_offset_frames_term(*self, docs@, i);
                lemma_posting_list_is_exact(*self, docs@, i);
                lemma_posting_list_len_is_df(*self, docs@, i);
                lemma_docs_with(docs@, self.head.keys@[i]@);
            }
        }
    }
}

/// Records in order in which no document stands twice for a term are
/// well-formed.
pub proof fn lemma_ordered_wf(rs: Seq<Record>)
    requires
        records_ordered(rs),
        forall|t: Seq<u8>, d: DocId| #[trigger] pair_count(rs, t, d) <= 1,
    ensures
        records_wf(rs),
{
    assert forall|i: int| 0 <= i < rs.len() implies (#[trigger] rs[i]).postings.len() > 0
        && strictly_ascending_ids(rs[i].postings) by {
        assert forall|d: DocId| occ(rs[i].postings, d) <= 1 by {
            lemma_pair_count_at(rs, i, d);
            assert(pair_count(rs, rs[i].term, d) <= 1);
        }
        lemma_ascending_strict(rs[i].postings);
    }
}

/// What is left when the blocks of documents that come in the order of
/// their identifiers have been merged holds a document once for a term
/// where the document holds the term, and not at all where it does not.
proof fn lemma_merged_counts(blocks: Seq<Vec<u8>>, docs: Seq<Doc>, m: int, content: Seq<u8>)
    requires
        ascending_docs(docs),
        blocks_count(blocks, chunks(docs, m)),
        chunks(docs, m).len() == 0 ==> content == Seq::<u8>::empty(),
        chunks(docs, m).len() == 1 ==> content == blocks[0]@,
        chunks(docs, m).len() >= 2 ==> parse_records(content) == Some(
            fifo_merge(parsed_blocks(blocks, 0)),
        ),
    ensures
        content_counts(content, docs),
{
    let cs = chunks(docs, m);
    let recs = parse_records(content).unwrap();
    if cs.len() == 0 {
        assert(parse_records(content) == Some(Seq::<Record>::empty()));
    } else if cs.len() == 1 {
        assert(block_counts(blocks[0]@, cs[0]));
    } else {
        lemma_queue_hits(blocks, cs, Seq::empty(), DocId { hi: 0, lo: 0 });
        lemma_fifo_merge(parsed_blocks(blocks, 0), Seq::empty(), DocId { hi: 0, lo: 0 });
    }
    assert forall|t: Seq<u8>, d: DocId| #[trigger] pair_count(recs, t, d) == hit(
        tokens(docs),
        t,
        d,
    ) by {
        lemma_chunks_exact(docs, m, t, d);
        if cs.len() == 1 {
            assert(cs.drop_last() =~= Seq::<Seq<Token>>::empty());
            assert(sum_hits(cs.drop_last(), t, d) == 0);
        } else if cs.len() >= 2 {
            lemma_queue_hits(blocks, cs, t, d);
            lemma_fifo_merge(parsed_blocks(blocks, 0), t, d);
        }
    }
    lemma_ordered_wf(recs);
}

/// The terms of the content of documents are valid UTF-8: each is a word
/// of a document.
pub proof fn lemma_content_terms(content: Seq<u8>, docs: Seq<Doc>)
    requires
        content_counts(content, docs),
    ensures
        terms_valid(parse_records(content).unwrap()),
{
    let recs = parse_records(content).unwrap();
    assert forall|i: int| 0 <= i < recs.len() implies vstd::utf8::valid_utf8(
        (#[trigger] recs[i]).term,
    ) by {
        let d = recs[i].postings[0];
        lemma_occ_positive(recs[i].postings, 0);
        lemma_pair_count_at(recs, i, d);
        assert(pair_count(recs, recs[i].term, d) == hit(tokens(docs), recs[i].term, d));
        let ts = tokens(docs);
        let n = choose|n: int|
            0 <= n < ts.len() && #[trigger] ts[n] == (Token { term: recs[i].term, id: d });
        let r = lemma_token_source(docs, n);
        vstd::utf8::encode_utf8_valid_utf8(docs[r.0].words@[r.1]@);
    }
}

/// The term is among the first `i` terms of the map.
pub open spec fn seen(m: TermMap<u64>, t: Seq<u8>, i: int) -> bool {
    exists|k: int| 0 <= k < i && #[trigger] m.keys@[k]@ == t
}

/// The term at index `i` is not among the terms before it, and the terms up
/// to it are those before it and itself.
proof fn lemma_seen_step(m: TermMap<u64>, i: int)
    requires
        m.wf(),
        0 <= i < m.keys@.len(),
    ensures
        !seen(m, m.keys@[i]@, i),
        forall|t: Seq<u8>| #[trigger] seen(m, t, i + 1) <==> seen(m, t, i) || t == m.keys@[i]@,
{
    if seen(m, m.keys@[i]@, i) {
        let k = choose|k: int| 0 <= k < i && #[trigger] m.keys@[k]@ == m.keys@[i]@;
        m.lemma_index(k);
        m.lemma_index(i);
    }
    assert forall|t: Seq<u8>| #[trigger] seen(m, t, i + 1) <==> seen(m, t, i) || t
        == m.keys@[i]@ by {
        if seen(m, t, i) {
            let k = choose|k: int| 0 <= k < i && #[trigger] m.keys@[k]@ == t;
            assert(0 <= k < i + 1 && m.keys@[k]@ == t);
        }
        if t == m.keys@[i]@ {
            assert(0 <= i < i + 1 && m.keys@[i]@ == t);
        }
        if seen(m, t, i + 1) {
            let k = choose|k: int| 0 <= k < i + 1 && #[trigger] m.keys@[k]@ == t;
            if k < i {
                assert(0 <= k < i && m.keys@[k]@ == t);
            }
        }
    }
}

} // verus!
