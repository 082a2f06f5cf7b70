//! Answering a query: the candidates, scored and ranked.

use crate::db::{terms_of, words_as_terms, DocId};
use crate::engine::Engine;
use crate::error::DecodeError;
use crate::laws::lemma_answer_is_of_candidates;
use crate::postings::strictly_ascending_ids;
use crate::ranking::{best_first, lemma_best_first_len, top_documents, Scored};
use crate::term_map::{key_views, TermMap};
use crate::vectors::{
    common_pairs, common_terms, doc_vector_ok, query_vector_ok, DocWeight, QueryWeight,
};
use vstd::prelude::*;

verus! {

impl Engine {
    /// The first error among the documents, in their order, if one of them
    /// cannot be read from the forward index.
    pub open spec fn first_error(&self, docs: Seq<DocId>) -> Option<DecodeError>
        decreases docs.len(),
    {
        if docs.len() == 0 {
            None
        } else {
            match self.first_error(docs.drop_last()) {
                Some(e) => Some(e),
                None => match self.doc_entries(docs.last()) {
                    Err(e) => Some(e),
                    Ok(_) => None,
                },
            }
        }
    }

    /// `score` is what `cosine` gave for the query and the document: for
    /// the weights of the query, the weights of the document, and the
    /// pairs of indices at which the two hold one term.
    pub open spec fn scored_ok<
        F: Fn(&Vec<QueryWeight>, &Vec<DocWeight>, &Vec<(usize, usize)>) -> u64,
    >(&self, qvec: TermMap<QueryWeight>, cosine: F, d: DocId, score: u64) -> bool {
        exists|dvec: TermMap<DocWeight>, common: Vec<(usize, usize)>|
            {
                &&& self.doc_entries(d) is Ok
                &&& doc_vector_ok(self.inverted_index.head, self.doc_entries(d).unwrap(), dvec)
                &&& common@ == common_pairs(qvec, dvec, qvec.keys@.len() as int)
                &&& #[trigger] call_ensures(cosine, (&qvec.values, &dvec.values, &common), score)
            }
    }

    /// `result` holds the best of the documents, the best first and no
    /// more than `top_n`, each document having the score that `cosine`
    /// gave for it.
    pub open spec fn ranked<
        F: Fn(&Vec<QueryWeight>, &Vec<DocWeight>, &Vec<(usize, usize)>) -> u64,
    >(&self, qvec: TermMap<QueryWeight>, cosine: F, docs: Seq<DocId>, result: Seq<DocId>) -> bool {
        exists|scored: Seq<Scored>|
            {
                &&& scored.len() == docs.len()
                &&& forall|i: int|
                    0 <= i < docs.len() ==> (#[trigger] scored[i]).doc == docs[i] && self.scored_ok(
                        qvec,
                        cosine,
                        docs[i],
                        scored[i].score,
                    )
                &&& result == #[trigger] best_first(scored, self.top_n as nat)
            }
    }

    /// `result` is an answer made of the documents `docs`: each of its
    /// documents is one of them, none stands in it twice, and it holds as
    /// many of them as the engine gives back, or all of them where they are
    /// fewer.
    pub open spec fn answers(&self, docs: Seq<DocId>, result: Seq<DocId>) -> bool {
        &&& result.len() == if self.top_n <= docs.len() {
            self.top_n as int
        } else {
            docs.len() as int
        }
        &&& forall|i: int| 0 <= i < result.len() ==> docs.contains(#[trigger] result[i])
        &&& forall|i: int, j: int| 0 <= i < j < result.len() ==> result[i] != result[j]
        &&& docs.len() <= self.top_n ==> forall|k: int|
            0 <= k < docs.len() ==> result.contains(#[trigger] docs[k])
    }

    /// Scores each of the documents against the query and gives back the
    /// best of them, the best first and no more than `top_n`. The first
    /// document that cannot be read from the forward index ends the
    /// ranking with its error.
    pub fn get_best_documents<
        F: Fn(&Vec<QueryWeight>, &Vec<DocWeight>, &Vec<(usize, usize)>) -> u64,
    >(&self, qvec: &TermMap<QueryWeight>, documents: Vec<DocId>, cosine: &F) -> (r: Result<
        Vec<DocId>,
        DecodeError,
    >)
        requires
            self.wf(),
            qvec.wf(),
            forall|q: &Vec<QueryWeight>, d: &Vec<DocWeight>, c: &Vec<(usize, usize)>|
                call_requires(*cosine, (q, d, c)),
        ensures
            match self.first_error(documents@) {
                Some(e) => r == Err::<Vec<DocId>, DecodeError>(e),
                None => r is Ok && self.ranked(*qvec, *cosine, documents@, r.unwrap()@),
            },
            r is Ok ==> r.unwrap()@.len() <= self.top_n && r.unwrap()@.len() <= documents@.len(),
            r is Ok && strictly_ascending_ids(documents@) ==> self.answers(
                documents@,
                r.unwrap()@,
            ),
    {
        let mut scored: Vec<Scored> = Vec::new();
        let mut k: usize = 0;
        proof {
            assert(documents@.take(0) =~= Seq::<DocId>::empty());
        }
        while k < documents.len()
            invariant
                self.wf(),
                qvec.wf(),
                forall|q: &Vec<QueryWeight>, d: &Vec<DocWeight>, c: &Vec<(usize, usize)>|
                    call_requires(*cosine, (q, d, c)),
                k <= documents@.len(),
                scored@.len() == k,
                self.first_error(documents@.take(k as int)) is None,
                forall|i: int|
                    0 <= i < k ==> (#[trigger] scored@[i]).doc == documents@[i] && self.scored_ok(
                        *qvec,
                        *cosine,
                        documents@[i],
                        scored@[i].score,
                    ),
            decreases documents.len() - k,
        {
            let doc = documents[k];
            proof {
                assert(documents@.take(k + 1).drop_last() =~= documents@.take(k as int));
                assert(documents@.take(k + 1).last() == doc);
            }
            let dvec = match self.doc_into_vec(&doc) {
                Ok(dvec) => dvec,
                Err(e) => {
                    proof {
                        lemma_first_error(*self, documents@, k + 1);
                    }
                    return Err(e);
                },
            };
            let common = common_terms(qvec, &dvec);
            let cosine_value = cosine(&qvec.values, &dvec.values, &common);
            proof {
                assert(self.scored_ok(*qvec, *cosine, doc, cosine_value)) by {
                    assert(call_ensures(
                        *cosine,
                        (&qvec.values, &dvec.values, &common),
                        cosine_value,
                    ));
                }
            }
            scored.push(Scored { score: cosine_value, doc });
            k = k + 1;
        }
        proof {
            assert(documents@.take(k as int) =~= documents@);
            lemma_best_first_len(scored@, self.top_n as nat);
        }
        let ghost witness = scored@;
        let result = top_documents(scored, self.top_n);
        proof {
            assert(result@ == best_first(witness, self.top_n as nat));
            if strictly_ascending_ids(documents@) {
                lemma_answer_is_of_candidates(*self, *qvec, *cosine, documents@, result@);
            }
        }
        Ok(result)
    }

    /// Answers a query with the documents that hold every word of the
    /// query that the head knows, the best first and no more than `top_n`.
    /// Words that the head does not know are passed over; where it knows
    /// none of the words, the answer is empty. `cosine` gives the score of
    /// a document for the query, a larger score for a better document.
    pub fn search<F: Fn(&Vec<QueryWeight>, &Vec<DocWeight>, &Vec<(usize, usize)>) -> u64>(
        &self,
        query: Vec<String>,
        cosine: F,
    ) -> (r: Result<Vec<DocId>, DecodeError>)
        requires
            self.wf(),
            forall|q: &Vec<QueryWeight>, d: &Vec<DocWeight>, c: &Vec<(usize, usize)>|
                call_requires(cosine, (q, d, c)),
        ensures
            match self.candidates(words_as_terms(query@)) {
                Err(e) => r == Err::<Vec<DocId>, DecodeError>(e),
                Ok(None) => r is Ok && r.unwrap()@.len() == 0,
                Ok(Some(documents)) => match self.first_error(documents) {
                    Some(e) => r == Err::<Vec<DocId>, DecodeError>(e),
                    None => r is Ok && exists|qvec: TermMap<QueryWeight>| #[trigger]
                        query_vector_ok(self.inverted_index.head, words_as_terms(query@), qvec)
                            && self.ranked(qvec, cosine, documents, r.unwrap()@),
                },
            },
            r is Ok ==> r.unwrap()@.len() <= self.top_n,
            r is Ok ==> match self.candidates(words_as_terms(query@)) {
                Ok(Some(documents)) => strictly_ascending_ids(documents) ==> self.answers(
                    documents,
                    r.unwrap()@,
                ),
                _ => true,
            },
    {
        let qvec = self.query_into_vec(&query);
        let terms = terms_of(&query);
        proof {
            assert(key_views(terms@) =~= words_as_terms(query@));
        }
        let result_of_bool_search = match self.find_candidates(&terms) {
            Ok(found) => found,
            Err(e) => {
                return Err(e);
            },
        };
        match result_of_bool_search {
            Some(documents) => self.get_best_documents(&qvec, documents, &cosine),
            None => Ok(Vec::new()),
        }
    }
}

/// An error that the first of the documents give is the error of all of
/// them.
pub proof fn lemma_first_error(engine: Engine, docs: Seq<DocId>, n: int)
    requires
        0 <= n <= docs.len(),
        engine.first_error(docs.take(n)) is Some,
    ensures
        engine.first_error(docs) == engine.first_error(docs.take(n)),
    decreases docs.len() - n,
{
    if n < docs.len() {
        assert(docs.take(n + 1).drop_last() =~= docs.take(n));
        lemma_first_error(engine, docs, n + 1);
    } else {
        assert(docs.take(n) =~= docs);
    }
}

} // verus!
