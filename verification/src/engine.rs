//! The query evaluator: the documents that hold every known word of a
//! query, the best of them first.

use crate::boolean::{intersect, intersect_spec};
use crate::bytes::read_u64;
use crate::corpus::ascending_docs;
use crate::db::{read_doc_id, Doc, DocId};
use crate::error::DecodeError;
use crate::index::{create_index, Index};
use crate::inverted_index::{create_inverted_index, InvertedIndex};
use crate::offsets::posting_list_at;
use crate::record::ids_at;
use crate::term_map::key_views;
use vstd::prelude::*;

verus! {

/// A search engine over a forward and an inverted index.
pub struct Engine {
    pub top_n: u64,
    pub forward_index: Index,
    pub inverted_index: InvertedIndex,
}

/// An engine over the documents, which come in the order of their
/// identifiers. It answers a query with up to twenty documents. The
/// weights of the words, and of the terms, are given by `tf_weight` and
/// `idf`.
pub fn init_engine<T: Fn(u64) -> u64, I: Fn(u64, u64) -> u64>(
    docs: &Vec<Doc>,
    count_of_documents: u64,
    tf_weight: T,
    idf: I,
) -> (engine: Engine)
    requires
        ascending_docs(docs@),
        forall|c: u64| call_requires(tf_weight, (c,)),
        forall|df: u64, n: u64| call_requires(idf, (df, n)),
    ensures
        engine.wf(),
        engine.top_n == 20,
        engine.forward_index.holds(docs@, tf_weight),
        engine.forward_index.records_documents(docs@),
        engine.inverted_index.indexes(docs@),
        engine.inverted_index.lists_documents(docs@),
        engine.inverted_index.max_map_size == 10_000,
        forall|i: int|
            0 <= i < engine.inverted_index.head.keys@.len() ==> call_ensures(
                idf,
                ((#[trigger] engine.inverted_index.head.values@[i]).df, count_of_documents),
                engine.inverted_index.head.values@[i].idf,
            ),
{
    let mut forward_index = create_index();
    proof {
        crate::laws::lemma_ascending_distinct(docs@);
    }
    forward_index.build(docs, tf_weight);
    let mut inverted_index = create_inverted_index();
    inverted_index.build(docs, count_of_documents, idf);
    Engine { top_n: 20, forward_index, inverted_index }
}

impl Engine {
    /// The head of the inverted index holds its terms in ascending order.
    pub open spec fn wf(&self) -> bool {
        self.inverted_index.head.wf()
    }

    /// Whether the engine is well-formed: whether the head of its inverted
    /// index holds its terms in ascending order, none twice.
    pub fn is_wf(&self) -> (ok: bool)
        ensures
            ok == self.wf(),
    {
        self.inverted_index.head.is_wf()
    }

    /// The posting list of a term of the head, as it is read from the
    /// content; `None` where the content ends before the list does.
    pub open spec fn posting_list(&self, t: Seq<u8>) -> Option<Seq<DocId>> {
        posting_list_at(
            self.inverted_index.index_content_file@,
            self.inverted_index.head@[t].offset as int,
        )
    }

    /// The documents that hold every term of `terms` that the head knows:
    /// the posting list of the first such term, cut down to what it shares
    /// with the posting list of each later one. `Ok(None)` where the head
    /// knows none of the terms.
    pub open spec fn candidates(&self, terms: Seq<Seq<u8>>) -> Result<
        Option<Seq<DocId>>,
        DecodeError,
    >
        decreases terms.len(),
    {
        if terms.len() == 0 {
            Ok(None)
        } else {
            match self.candidates(terms.drop_last()) {
                Err(e) => Err(e),
                Ok(found) => if !self.inverted_index.head@.contains_key(terms.last()) {
                    Ok(found)
                } else {
                    match self.posting_list(terms.last()) {
                        None => Err(DecodeError::UnexpectedEof),
                        Some(list) => match found {
                            None => Ok(Some(list)),
                            Some(curr) => Ok(Some(intersect_spec(curr, list))),
                        },
                    }
                },
            }
        }
    }

    /// Reads the posting list of a term that the head holds.
    pub fn get_posting_list(&self, word: &Vec<u8>) -> (r: Result<Vec<DocId>, DecodeError>)
        requires
            self.wf(),
            self.inverted_index.head@.contains_key(word@),
        ensures
            match self.posting_list(word@) {
                Some(list) => r is Ok && r.unwrap()@ == list,
                None => r == Err::<Vec<DocId>, DecodeError>(DecodeError::UnexpectedEof),
            },
    {
        let (_, idx) = self.inverted_index.head.find(word.as_slice());
        let offset = self.inverted_index.head.values[idx].offset;
        let content = self.inverted_index.index_content_file.as_slice();
        let len = content.len();
        if len < 8 || offset > (len - 8) as u64 {
            return Err(DecodeError::UnexpectedEof);
        }
        let start = offset as usize;
        let posting_list_len = read_u64(content, start);
        if posting_list_len > ((len - 8 - start) / 12) as u64 {
            return Err(DecodeError::UnexpectedEof);
        }
        let count = posting_list_len as usize;
        let mut result: Vec<DocId> = Vec::new();
        let mut i: usize = 0;
        while i < count
            invariant
                i <= count,
                len == content@.len(),
                start + 8 + 12 * count <= len,
                result@ == ids_at(content@, start + 8, i as int),
            decreases count - i,
        {
            let id = read_doc_id(content, start + 8 + 12 * i);
            result.push(id);
            proof {
                assert(result@ =~= ids_at(content@, start + 8, i + 1));
            }
            i = i + 1;
        }
        Ok(result)
    }

    /// What `curr` shares with the posting list of a term that the head
    /// holds.
    pub fn intersec(&self, curr: &Vec<DocId>, word: &Vec<u8>) -> (r: Result<
        Vec<DocId>,
        DecodeError,
    >)
        requires
            self.wf(),
            self.inverted_index.head@.contains_key(word@),
        ensures
            match self.posting_list(word@) {
                Some(list) => r is Ok && r.unwrap()@ == intersect_spec(curr@, list),
                None => r == Err::<Vec<DocId>, DecodeError>(DecodeError::UnexpectedEof),
            },
    {
        match self.get_posting_list(word) {
            Err(e) => Err(e),
            Ok(other) => Ok(intersect(curr, &other)),
        }
    }

    /// The documents that hold every word of the query that the head
    /// knows; `None` where the head knows none of the words.
    pub fn find_candidates(&self, query: &Vec<Vec<u8>>) -> (r: Result<
        Option<Vec<DocId>>,
        DecodeError,
    >)
        requires
            self.wf(),
        ensures
            match self.candidates(key_views(query@)) {
                Err(e) => r == Err::<Option<Vec<DocId>>, DecodeError>(e),
                Ok(None) => r == Ok::<Option<Vec<DocId>>, DecodeError>(None),
                Ok(Some(list)) => r is Ok && r.unwrap() is Some && r.unwrap().unwrap()@ == list,
            },
    {
        let mut result_of_bool_search: Option<Vec<DocId>> = None;
        let ghost terms = key_views(query@);
        let mut i: usize = 0;
        proof {
            assert(terms.take(0) =~= Seq::<Seq<u8>>::empty());
        }
        while i < query.len()
            invariant
                self.wf(),
                i <= query@.len(),
                terms == key_views(query@),
                match self.candidates(terms.take(i as int)) {
                    Err(e) => false,
                    Ok(None) => result_of_bool_search is None,
                    Ok(Some(list)) => result_of_bool_search is Some
                        && result_of_bool_search.unwrap()@ == list,
                },
            decreases query.len() - i,
        {
            let word = &query[i];
            proof {
                assert(terms.take(i + 1).drop_last() =~= terms.take(i as int));
                assert(terms.take(i + 1).last() == word@);
            }
            let (exists, _) = self.inverted_index.head.find(word.as_slice());
            if exists {
                let next = match result_of_bool_search {
                    Some(curr) => self.intersec(&curr, word),
                    None => self.get_posting_list(word),
                };
                match next {
                    Err(e) => {
                        proof {
                            assert(terms.take(query@.len() as int) =~= terms);
                            lemma_candidates_error(*self, terms, i + 1);
                        }
                        return Err(e);
                    },
                    Ok(list) => {
                        result_of_bool_search = Some(list);
                    },
                }
            }
            i = i + 1;
        }
        proof {
            assert(terms.take(i as int) =~= terms);
        }
        Ok(result_of_bool_search)
    }
}

/// An error that the first terms of a query give is the error of the
/// query.
pub proof fn lemma_candidates_error(engine: Engine, terms: Seq<Seq<u8>>, n: int)
    requires
        0 <= n <= terms.len(),
        engine.candidates(terms.take(n)) is Err,
    ensures
        engine.candidates(terms) == engine.candidates(terms.take(n)),
    decreases terms.len() - n,
{
    if n < terms.len() {
        assert(terms.take(n + 1).drop_last() =~= terms.take(n));
        lemma_candidates_error(engine, terms, n + 1);
    } else {
        assert(terms.take(n) =~= terms);
    }
}

} // verus!
