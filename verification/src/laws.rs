//! What holds of every index that was built from documents in the order of
//! their identifiers.

use crate::block::{lemma_pair_count_absent, lemma_pair_count_at};
use crate::boolean::lemma_intersect_sorted;
use crate::builder::{doc_freq, doc_has, head_counts};
use crate::bytes::{be_u64, lemma_lex_trichotomy, lemma_u64_at_be, lex_lt, u64_at};
use crate::corpus::{ascending_docs, doc_tokens, hit, holds, tokens, Token};
use crate::counts::{count_in, lemma_count_in_positive, lemma_count_in_witness};
use crate::db::{
    doc_id_at, encode_doc_id, lemma_doc_id_at_encode, lemma_key_injective, words_as_terms, Doc,
    DocId,
};
use crate::engine::Engine;
use crate::forward::{lemma_encode_parsed_forward, parse_forward_at, ForwardEntry};
use crate::index::{
    encode_forward_head, forward_head, forward_len, head_entries, lemma_entries_len, weighted,
    words_len, Index,
};
use crate::inverted_index::{HeadValue, InvertedIndex};
use crate::offsets::{
    encode_head, encode_head_entry, lemma_last_offset_at, lemma_nth_record, lemma_offset_points,
    parse_head_entry_at, parse_head_from, posting_list_at, stored_head, StoredEntry,
};
use crate::postings::{
    ascending, lemma_occ_positive, lemma_occ_witness, occ, pair_count,
    record_terms, records_ordered, strictly_ascending_ids,
};
use crate::ranking::{
    best_first, best_items, distinct_docs, lemma_best_first_distinct, lemma_best_first_holds_all,
    lemma_best_first_len, lemma_best_items_chosen, Scored,
};
use crate::record::{lemma_encode_parsed_records, parse_records, Record};
use crate::term_map::{strictly_ascending, TermMap};
use crate::vectors::{doc_weights, DocWeight, QueryWeight};
use vstd::prelude::*;

verus! {

/// The identifiers of the documents that hold the term, in the order of
/// the documents.
pub open spec fn docs_with(docs: Seq<Doc>, t: Seq<u8>) -> Seq<DocId>
    decreases docs.len(),
{
    if docs.len() == 0 {
        Seq::empty()
    } else if doc_has(docs.last(), t) {
        docs_with(docs.drop_last(), t).push(docs.last()._id)
    } else {
        docs_with(docs.drop_last(), t)
    }
}

/// The documents that hold a term are as many as are counted for it; their
/// identifiers ascend strictly where those of the documents do; and an
/// identifier is among them if and only if it is that of a document that
/// holds the term.
pub proof fn lemma_docs_with(docs: Seq<Doc>, t: Seq<u8>)
    requires
        ascending_docs(docs),
    ensures
        docs_with(docs, t).len() == doc_freq(docs, t),
        strictly_ascending_ids(docs_with(docs, t)),
        docs.len() > 0 ==> forall|i: int|
            0 <= i < docs_with(docs, t).len() ==> (#[trigger] docs_with(docs, t)[i]).key()
                <= docs.last()._id.key(),
        forall|d: DocId|
            occ(docs_with(docs, t), d) >= 1 <==> exists|k: int|
                0 <= k < docs.len() && (#[trigger] docs[k])._id == d && doc_has(docs[k], t),
    decreases docs.len(),
{
    let w = docs_with(docs, t);
    if docs.len() > 0 {
        let front = docs.drop_last();
        let last = docs.last();
        assert(ascending_docs(front)) by {
            assert forall|i: int, j: int| 0 <= i < j < front.len() implies (
            #[trigger] front[i])._id.key() < (#[trigger] front[j])._id.key() by {
                assert(front[i] == docs[i] && front[j] == docs[j]);
            }
        }
        lemma_docs_with(front, t);
        let wf = docs_with(front, t);
        if front.len() > 0 {
            assert(front.last() == docs[docs.len() - 2]);
            assert(docs[docs.len() - 2]._id.key() < docs[docs.len() - 1]._id.key());
        }
        assert forall|i: int| 0 <= i < w.len() implies (#[trigger] w[i]).key()
            <= last._id.key() by {
            if i < wf.len() {
                assert(w[i] == wf[i]);
            }
        }
        assert forall|i: int, j: int| 0 <= i < j < w.len() implies (#[trigger] w[i]).key() < (
        #[trigger] w[j]).key() by {
            assert(w[i] == wf[i]);
            if j < wf.len() {
                assert(w[j] == wf[j]);
            }
        }
        assert forall|d: DocId|
            occ(w, d) >= 1 <==> exists|k: int|
                0 <= k < docs.len() && (#[trigger] docs[k])._id == d && doc_has(docs[k], t) by {
            if doc_has(last, t) {
                assert(w.drop_last() =~= wf);
            }
            if occ(wf, d) >= 1 {
                let k = choose|k: int|
                    0 <= k < front.len() && (#[trigger] front[k])._id == d && doc_has(front[k], t);
                assert(docs[k]._id == d && doc_has(docs[k], t));
            }
            if doc_has(last, t) && last._id == d {
                assert(docs[docs.len() - 1]._id == d && doc_has(docs[docs.len() - 1], t));
            }
            if exists|k: int|
                0 <= k < docs.len() && (#[trigger] docs[k])._id == d && doc_has(docs[k], t) {
                let k = choose|k: int|
                    0 <= k < docs.len() && (#[trigger] docs[k])._id == d && doc_has(docs[k], t);
                if k < front.len() {
                    assert(front[k]._id == d && doc_has(front[k], t));
                }
            }
        }
    }
}

/// A term occurs in a document among the occurrences of the documents if
/// and only if one of the documents has that identifier and holds the term.
pub proof fn lemma_tokens_hold(docs: Seq<Doc>, t: Seq<u8>, d: DocId)
    ensures
        holds(tokens(docs), t, d) <==> exists|k: int|
            0 <= k < docs.len() && (#[trigger] docs[k])._id == d && doc_has(docs[k], t),
    decreases docs.len(),
{
    let ts = tokens(docs);
    let tok = Token { term: t, id: d };
    if docs.len() > 0 {
        let front = docs.drop_last();
        let last = docs.last();
        let a = tokens(front);
        let b = doc_tokens(last);
        let words = words_as_terms(last.words@);
        lemma_tokens_hold(front, t, d);
        if holds(a, t, d) {
            let i = choose|i: int| 0 <= i < a.len() && #[trigger] a[i] == tok;
            assert(ts[i] == tok);
            let k = choose|k: int|
                0 <= k < front.len() && (#[trigger] front[k])._id == d && doc_has(front[k], t);
            assert(docs[k]._id == d && doc_has(docs[k], t));
        }
        if last._id == d && doc_has(last, t) {
            let j = lemma_count_in_witness(words, t);
            assert(b[j] == tok);
            assert(ts[a.len() + j] == tok);
            assert(docs[docs.len() - 1]._id == d && doc_has(docs[docs.len() - 1], t));
        }
        if holds(ts, t, d) {
            let i = choose|i: int| 0 <= i < ts.len() && #[trigger] ts[i] == tok;
            if i < a.len() {
                assert(a[i] == tok);
            } else {
                let j = i - a.len();
                assert(b[j] == tok);
                assert(words[j] == t);
                lemma_count_in_positive(words, j);
                assert(docs[docs.len() - 1]._id == d && doc_has(docs[docs.len() - 1], t));
            }
        }
        if exists|k: int|
            0 <= k < docs.len() && (#[trigger] docs[k])._id == d && doc_has(docs[k], t) {
            let k = choose|k: int|
                0 <= k < docs.len() && (#[trigger] docs[k])._id == d && doc_has(docs[k], t);
            if k < front.len() {
                assert(front[k]._id == d && doc_has(front[k], t));
            }
        }
    }
}

/// Two lists of identifiers that ascend strictly and hold the same
/// identifiers are equal.
pub proof fn lemma_ascending_unique(a: Seq<DocId>, b: Seq<DocId>)
    requires
        strictly_ascending_ids(a),
        strictly_ascending_ids(b),
        forall|d: DocId| occ(a, d) >= 1 <==> occ(b, d) >= 1,
    ensures
        a == b,
    decreases a.len(),
{
    if a.len() == 0 {
        if b.len() > 0 {
            lemma_occ_positive(b, 0);
            assert(occ(a, b[0]) == 0);
        }
        assert(a =~= b);
    } else {
        lemma_occ_positive(a, a.len() - 1);
        let jb = lemma_occ_witness(b, a.last());
        lemma_occ_positive(b, b.len() - 1);
        let ia = lemma_occ_witness(a, b.last());
        if ia < a.len() - 1 {
            assert(a[ia].key() < a[a.len() - 1].key());
        }
        if jb < b.len() - 1 {
            assert(b[jb].key() < b[b.len() - 1].key());
        }
        lemma_key_injective(a.last(), b.last());
        let a0 = a.drop_last();
        let b0 = b.drop_last();
        lemma_drop_last_ascending(a);
        lemma_drop_last_ascending(b);
        assert forall|d: DocId| occ(a0, d) >= 1 <==> occ(b0, d) >= 1 by {
            assert(occ(a0, d) >= 1 <==> occ(a, d) >= 1 && d != a.last());
            assert(occ(b0, d) >= 1 <==> occ(b, d) >= 1 && d != b.last());
            assert(occ(a, d) >= 1 <==> occ(b, d) >= 1);
        }
        lemma_ascending_unique(a0, b0);
        assert(a =~= a0.push(a.last()));
        assert(b =~= b0.push(b.last()));
    }
}

/// What is left of a strictly ascending list without its last identifier
/// ascends strictly and holds the rest of the identifiers.
proof fn lemma_drop_last_ascending(s: Seq<DocId>)
    requires
        strictly_ascending_ids(s),
        s.len() > 0,
    ensures
        strictly_ascending_ids(s.drop_last()),
        forall|d: DocId| occ(s.drop_last(), d) >= 1 <==> occ(s, d) >= 1 && d != s.last(),
{
    let front = s.drop_last();
    assert forall|i: int, j: int| 0 <= i < j < front.len() implies (#[trigger] front[i]).key() < (
    #[trigger] front[j]).key() by {
        assert(front[i] == s[i] && front[j] == s[j]);
    }
    assert forall|d: DocId| occ(front, d) >= 1 <==> occ(s, d) >= 1 && d != s.last() by {
        if occ(front, d) >= 1 {
            let i = lemma_occ_witness(front, d);
            assert(front[i] == s[i]);
            assert(s[i].key() < s[s.len() - 1].key());
        }
    }
}

/// A term of the head has a record in the content.
pub proof fn lemma_head_term_has_record(index: InvertedIndex, docs: Seq<Doc>, i: int) -> (r: int)
    requires
        index.indexes(docs),
        0 <= i < index.head.keys@.len(),
    ensures
        0 <= r < parse_records(index.index_content_file@).unwrap().len(),
        parse_records(index.index_content_file@).unwrap()[r].term == index.head.keys@[i]@,
{
    let recs = parse_records(index.index_content_file@).unwrap();
    let t = index.head.keys@[i]@;
    index.head.lemma_index(i);
    assert(doc_freq(docs, t) >= 1);
    let k = lemma_doc_freq_witness(docs, t);
    let d = docs[k]._id;
    lemma_tokens_hold(docs, t, d);
    assert(pair_count(recs, t, d) == hit(tokens(docs), t, d));
    if forall|r: int| 0 <= r < recs.len() ==> (#[trigger] recs[r]).term != t {
        lemma_pair_count_absent(recs, t, d);
    }
    choose|r: int| 0 <= r < recs.len() && (#[trigger] recs[r]).term == t
}

/// A term that is counted is held by one of the documents.
pub proof fn lemma_doc_freq_witness(docs: Seq<Doc>, t: Seq<u8>) -> (k: int)
    requires
        doc_freq(docs, t) >= 1,
    ensures
        0 <= k < docs.len(),
        doc_has(docs[k], t),
    decreases docs.len(),
{
    if doc_has(docs.last(), t) {
        docs.len() - 1
    } else {
        lemma_doc_freq_witness(docs.drop_last(), t)
    }
}

/// In an index of documents that come in the order of their identifiers,
/// the posting list that is read at the offset of a term of the head holds
/// the identifiers of the documents that hold the term, in ascending
/// order: each of them once, and no others.
pub proof fn lemma_posting_list_is_exact(index: InvertedIndex, docs: Seq<Doc>, i: int)
    requires
        index.indexes(docs),
        ascending_docs(docs),
        0 <= i < index.head.keys@.len(),
    ensures
        posting_list_at(index.index_content_file@, index.head.values@[i].offset as int) == Some(
            docs_with(docs, index.head.keys@[i]@),
        ),
{
    let data = index.index_content_file@;
    let recs = parse_records(data).unwrap();
    let t = index.head.keys@[i]@;
    let r = lemma_head_term_has_record(index, docs, i);
    lemma_offset_points(data, r);
    let list = recs[r].postings;
    lemma_docs_with(docs, t);
    assert forall|d: DocId| occ(list, d) == hit(tokens(docs), t, d) by {
        lemma_pair_count_at(recs, r, d);
        assert(pair_count(recs, t, d) == hit(tokens(docs), t, d));
    }
    assert forall|d: DocId| occ(list, d) >= 1 <==> occ(docs_with(docs, t), d) >= 1 by {
        assert(occ(list, d) == hit(tokens(docs), t, d));
        lemma_tokens_hold(docs, t, d);
    }
    lemma_ascending_unique(list, docs_with(docs, t));
}

/// In an index of documents that come in the order of their identifiers,
/// every posting list ascends strictly: no identifier is followed by a
/// smaller one or by itself.
pub proof fn lemma_posting_lists_ascend(index: InvertedIndex, docs: Seq<Doc>, i: int)
    requires
        index.indexes(docs),
        ascending_docs(docs),
        0 <= i < index.head.keys@.len(),
    ensures
        posting_list_at(index.index_content_file@, index.head.values@[i].offset as int) is Some,
        strictly_ascending_ids(
            posting_list_at(
                index.index_content_file@,
                index.head.values@[i].offset as int,
            ).unwrap(),
        ),
{
    lemma_posting_list_is_exact(index, docs, i);
    lemma_docs_with(docs, index.head.keys@[i]@);
}

/// In an index of documents that come in the order of their identifiers,
/// the posting list of a term is as long as the number of documents that
/// hold the term, which is the number that the head holds for the term.
pub proof fn lemma_posting_list_len_is_df(index: InvertedIndex, docs: Seq<Doc>, i: int)
    requires
        index.indexes(docs),
        ascending_docs(docs),
        0 <= i < index.head.keys@.len(),
    ensures
        posting_list_at(index.index_content_file@, index.head.values@[i].offset as int) is Some,
        posting_list_at(
            index.index_content_file@,
            index.head.values@[i].offset as int,
        ).unwrap().len() == doc_freq(docs, index.head.keys@[i]@),
        index.head.values@[i].df == doc_freq(docs, index.head.keys@[i]@),
        index.head.values@[i].df >= 1,
{
    lemma_posting_list_is_exact(index, docs, i);
    lemma_docs_with(docs, index.head.keys@[i]@);
    index.head.lemma_index(i);
}

/// Every posting list of a term that the head knows among `terms` holds
/// the document.
pub open spec fn in_all_known(engine: Engine, terms: Seq<Seq<u8>>, d: DocId) -> bool {
    forall|j: int|
        0 <= j < terms.len() && engine.inverted_index.head@.contains_key(#[trigger] terms[j])
            ==> engine.posting_list(terms[j]).unwrap().contains(d)
}

/// Every posting list of a term that the head knows among `terms` can be
/// read and ascends strictly.
pub open spec fn known_lists_ascend(engine: Engine, terms: Seq<Seq<u8>>) -> bool {
    forall|j: int|
        0 <= j < terms.len() && engine.inverted_index.head@.contains_key(#[trigger] terms[j])
            ==> engine.posting_list(terms[j]) is Some && strictly_ascending_ids(
            engine.posting_list(terms[j]).unwrap(),
        )
}

/// Where the posting lists ascend strictly, the candidates of a query are
/// the documents that stand in the posting list of every word of the query
/// that the head knows, in ascending order. The words that the head does
/// not know have no part in it; and there are no candidates at all only
/// where the head knows none of the words.
pub proof fn lemma_candidates_are_intersection(engine: Engine, terms: Seq<Seq<u8>>)
    requires
        known_lists_ascend(engine, terms),
    ensures
        match engine.candidates(terms) {
            Err(_) => false,
            Ok(None) => forall|j: int|
                0 <= j < terms.len() ==> !engine.inverted_index.head@.contains_key(
                    #[trigger] terms[j],
                ),
            Ok(Some(c)) => {
                &&& exists|j: int|
                    0 <= j < terms.len() && engine.inverted_index.head@.contains_key(
                        #[trigger] terms[j],
                    )
                &&& strictly_ascending_ids(c)
                &&& forall|d: DocId| #[trigger] c.contains(d) <==> in_all_known(engine, terms, d)
            },
        },
    decreases terms.len(),
{
    if terms.len() > 0 {
        let front = terms.drop_last();
        let last = terms.last();
        assert(known_lists_ascend(engine, front)) by {
            assert forall|j: int|
                0 <= j < front.len() && engine.inverted_index.head@.contains_key(
                    #[trigger] front[j],
                ) implies engine.posting_list(front[j]) is Some && strictly_ascending_ids(
                engine.posting_list(front[j]).unwrap(),
            ) by {
                assert(front[j] == terms[j]);
            }
        }
        lemma_candidates_are_intersection(engine, front);
        let found = engine.candidates(front).unwrap();
        let known = engine.inverted_index.head@.contains_key(last);
        assert(terms[terms.len() - 1] == last);
        assert forall|d: DocId|
            in_all_known(engine, terms, d) <==> in_all_known(engine, front, d) && (known
                ==> engine.posting_list(last).unwrap().contains(d)) by {
            if in_all_known(engine, terms, d) {
                assert forall|j: int|
                    0 <= j < front.len() && engine.inverted_index.head@.contains_key(
                        #[trigger] front[j],
                    ) implies engine.posting_list(front[j]).unwrap().contains(d) by {
                    assert(front[j] == terms[j]);
                }
            }
            if in_all_known(engine, front, d) && (known ==> engine.posting_list(
                last,
            ).unwrap().contains(d)) {
                assert forall|j: int|
                    0 <= j < terms.len() && engine.inverted_index.head@.contains_key(
                        #[trigger] terms[j],
                    ) implies engine.posting_list(terms[j]).unwrap().contains(d) by {
                    if j < front.len() {
                        assert(front[j] == terms[j]);
                    }
                }
            }
        }
        if known {
            let list = engine.posting_list(last).unwrap();
            match found {
                None => {
                    assert forall|d: DocId| in_all_known(engine, front, d) by {
                        assert forall|j: int|
                            0 <= j < front.len() && engine.inverted_index.head@.contains_key(
                                #[trigger] front[j],
                            ) implies engine.posting_list(front[j]).unwrap().contains(d) by {}
                    }
                },
                Some(curr) => {
                    lemma_intersect_sorted(curr, list);
                },
            }
        } else {
            match found {
                None => {
                    assert forall|j: int|
                        0 <= j < terms.len() implies !engine.inverted_index.head@.contains_key(
                    #[trigger] terms[j]) by {
                        if j < front.len() {
                            assert(front[j] == terms[j]);
                        }
                    }
                },
                Some(curr) => {
                    let j = choose|j: int|
                        0 <= j < front.len() && engine.inverted_index.head@.contains_key(
                            #[trigger] front[j],
                        );
                    assert(terms[j] == front[j]);
                },
            }
        }
    }
}

/// The records of the first documents take no more bytes than the records
/// of all of them.
pub proof fn lemma_forward_len_take(docs: Seq<Doc>, k: int)
    requires
        0 <= k <= docs.len(),
    ensures
        0 <= forward_len(docs.take(k)) <= forward_len(docs),
    decreases docs.len(),
{
    if k == docs.len() {
        assert(docs.take(k) =~= docs);
        lemma_forward_len_nonneg(docs);
    } else {
        lemma_forward_len_take(docs.drop_last(), k);
        assert(docs.drop_last().take(k) =~= docs.take(k));
        lemma_words_len_nonneg(words_as_terms(docs.last().words@));
    }
}

/// The entries of words take no less than no bytes.
proof fn lemma_words_len_nonneg(words: Seq<Seq<u8>>)
    ensures
        words_len(words) >= 0,
    decreases words.len(),
{
    if words.len() > 0 {
        lemma_words_len_nonneg(words.drop_last());
    }
}

/// The records of documents take no less than no bytes.
proof fn lemma_forward_len_nonneg(docs: Seq<Doc>)
    ensures
        forward_len(docs) >= 0,
    decreases docs.len(),
{
    if docs.len() > 0 {
        lemma_forward_len_nonneg(docs.drop_last());
        lemma_words_len_nonneg(words_as_terms(docs.last().words@));
    }
}

/// No two of the documents have one identifier.
pub open spec fn distinct_ids(docs: Seq<Doc>) -> bool {
    forall|i: int, j: int|
        0 <= i < j < docs.len() ==> (#[trigger] docs[i])._id != (#[trigger] docs[j])._id
}

/// Documents that come in the order of their identifiers have distinct
/// identifiers.
pub proof fn lemma_ascending_distinct(docs: Seq<Doc>)
    requires
        ascending_docs(docs),
    ensures
        distinct_ids(docs),
{
    assert forall|i: int, j: int| 0 <= i < j < docs.len() implies (#[trigger] docs[i])._id != (
    #[trigger] docs[j])._id by {
        assert(docs[i]._id.key() < docs[j]._id.key());
    }
}

/// The head of documents with distinct identifiers holds the identifiers
/// of the documents and no others, as many as there are documents.
pub proof fn lemma_forward_head_size(docs: Seq<Doc>)
    requires
        distinct_ids(docs),
    ensures
        forward_head(docs).dom().finite(),
        forward_head(docs).len() == docs.len(),
        forall|key: u128|
            forward_head(docs).contains_key(key) <==> exists|k: int|
                0 <= k < docs.len() && (#[trigger] docs[k])._id.key() == key,
    decreases docs.len(),
{
    if docs.len() > 0 {
        let front = docs.drop_last();
        let last = docs.last();
        assert(distinct_ids(front)) by {
            assert forall|i: int, j: int| 0 <= i < j < front.len() implies (
            #[trigger] front[i])._id != (#[trigger] front[j])._id by {
                assert(front[i] == docs[i] && front[j] == docs[j]);
            }
        }
        lemma_forward_head_size(front);
        let key = last._id.key() as u128;
        if forward_head(front).contains_key(key) {
            let k = choose|k: int| 0 <= k < front.len() && (#[trigger] front[k])._id.key() == key;
            assert(front[k] == docs[k]);
            lemma_key_injective(docs[k]._id, docs[docs.len() - 1]._id);
        }
        assert forall|x: u128|
            forward_head(docs).contains_key(x) <==> exists|k: int|
                0 <= k < docs.len() && (#[trigger] docs[k])._id.key() == x by {
            if forward_head(front).contains_key(x) {
                let k = choose|k: int|
                    0 <= k < front.len() && (#[trigger] front[k])._id.key() == x;
                assert(docs[k]._id.key() == x);
            }
            if x == key {
                assert(docs[docs.len() - 1]._id.key() == x);
            }
            if exists|k: int| 0 <= k < docs.len() && (#[trigger] docs[k])._id.key() == x {
                let k = choose|k: int| 0 <= k < docs.len() && (#[trigger] docs[k])._id.key() == x;
                if k < front.len() {
                    assert(front[k]._id.key() == x);
                }
            }
        }
    } else {
        assert(forward_head(docs).dom() =~= Set::<u128>::empty());
    }
}

/// The head of documents with distinct identifiers holds each document
/// with the place at which the records of the documents before it end.
pub proof fn lemma_forward_head_at(docs: Seq<Doc>, k: int)
    requires
        distinct_ids(docs),
        0 <= k < docs.len(),
        forward_len(docs) <= u64::MAX,
    ensures
        forward_head(docs).contains_key(docs[k]._id.key() as u128),
        forward_head(docs)[docs[k]._id.key() as u128] == forward_len(docs.take(k)),
    decreases docs.len(),
{
    let front = docs.drop_last();
    lemma_forward_len_take(docs, docs.len() - 1);
    assert(docs.take(docs.len() - 1) =~= front);
    if k == docs.len() - 1 {
    } else {
        assert(distinct_ids(front)) by {
            assert forall|i: int, j: int| 0 <= i < j < front.len() implies (
            #[trigger] front[i])._id != (#[trigger] front[j])._id by {
                assert(front[i] == docs[i] && front[j] == docs[j]);
            }
        }
        lemma_forward_head_at(front, k);
        assert(front.take(k) =~= docs.take(k));
        assert(front[k] == docs[k]);
        assert(docs[k]._id != docs[docs.len() - 1]._id);
        if docs[k]._id.key() == docs[docs.len() - 1]._id.key() {
            lemma_key_injective(docs[k]._id, docs[docs.len() - 1]._id);
        }
    }
}

/// The terms of the entries that have a weight are the terms of the
/// entries.
pub proof fn lemma_doc_weights_dom(es: Seq<ForwardEntry>, words: Seq<Seq<u8>>, t: Seq<u8>)
    requires
        es.len() == words.len(),
        forall|j: int| 0 <= j < words.len() ==> (#[trigger] es[j]).term == words[j],
    ensures
        doc_weights(es).contains_key(t) <==> count_in(words, t) >= 1,
    decreases es.len(),
{
    if es.len() > 0 {
        assert forall|j: int| 0 <= j < words.drop_last().len() implies (
        #[trigger] es.drop_last()[j]).term == words.drop_last()[j] by {
            assert(es.drop_last()[j] == es[j]);
        }
        lemma_doc_weights_dom(es.drop_last(), words.drop_last(), t);
        assert(es[es.len() - 1].term == words[es.len() - 1]);
    }
}

/// In a forward index of documents with distinct identifiers, the head
/// holds each document once, and the record at the document's offset holds
/// the words of the document in their order, so that the terms with a
/// weight are the distinct words of the document; the head file holds
/// twenty bytes for each document.
pub proof fn lemma_forward_record<F: Fn(u64) -> u64>(index: Index, docs: Seq<Doc>, f: F, k: int)
    requires
        index.holds(docs, f),
        distinct_ids(docs),
        index.index_content_file@.len() <= u64::MAX,
        0 <= k < docs.len(),
    ensures
        index.head@.len() == docs.len(),
        index.index_head_file@.len() == 20 * docs.len(),
        index.head@.contains_key(docs[k]._id.key() as u128),
        index.head@[docs[k]._id.key() as u128] == forward_len(docs.take(k)),
        parse_forward_at(
            index.index_content_file@,
            index.head@[docs[k]._id.key() as u128] as int,
        ) is Some,
        ({
            let es = parse_forward_at(
                index.index_content_file@,
                index.head@[docs[k]._id.key() as u128] as int,
            ).unwrap();
            let words = words_as_terms(docs[k].words@);
            &&& es.len() == words.len()
            &&& forall|j: int| 0 <= j < words.len() ==> (#[trigger] es[j]).term == words[j]
            &&& forall|t: Seq<u8>| #[trigger]
                doc_weights(es).contains_key(t) <==> count_in(words, t) >= 1
        }),
{
    lemma_forward_head_at(docs, k);
    lemma_forward_head_size(docs);
    lemma_forward_head_roundtrip(docs);
    lemma_forward_len_take(docs, k);
    let p = forward_len(docs.take(k));
    let es = parse_forward_at(index.index_content_file@, p).unwrap();
    let words = words_as_terms(docs[k].words@);
    assert forall|t: Seq<u8>| #[trigger] doc_weights(es).contains_key(t) <==> count_in(words, t)
        >= 1 by {
        lemma_doc_weights_dom(es, words, t);
    }
}

/// Two lists of identifiers in which none is followed by a smaller one and
/// which hold each identifier equally often are equal.
pub proof fn lemma_ascending_equal(a: Seq<DocId>, b: Seq<DocId>)
    requires
        ascending(a),
        ascending(b),
        forall|d: DocId| occ(a, d) == occ(b, d),
    ensures
        a == b,
    decreases a.len(),
{
    if a.len() == 0 {
        if b.len() > 0 {
            lemma_occ_positive(b, 0);
            assert(occ(a, b[0]) == 0);
        }
        assert(a =~= b);
    } else {
        lemma_occ_positive(a, a.len() - 1);
        assert(occ(b, a.last()) >= 1);
        let jb = lemma_occ_witness(b, a.last());
        lemma_occ_positive(b, b.len() - 1);
        assert(occ(a, b.last()) >= 1);
        let ia = lemma_occ_witness(a, b.last());
        if ia < a.len() - 1 {
            assert(a[ia].key() <= a[a.len() - 1].key());
        }
        if jb < b.len() - 1 {
            assert(b[jb].key() <= b[b.len() - 1].key());
        }
        lemma_key_injective(a.last(), b.last());
        let a0 = a.drop_last();
        let b0 = b.drop_last();
        assert(ascending(a0)) by {
            assert forall|i: int, j: int|
                0 <= i < j < a0.len() implies (#[trigger] a0[i]).key() <= (
            #[trigger] a0[j]).key() by {
                assert(a0[i] == a[i] && a0[j] == a[j]);
            }
        }
        assert(ascending(b0)) by {
            assert forall|i: int, j: int|
                0 <= i < j < b0.len() implies (#[trigger] b0[i]).key() <= (
            #[trigger] b0[j]).key() by {
                assert(b0[i] == b[i] && b0[j] == b[j]);
            }
        }
        assert forall|d: DocId| occ(a0, d) == occ(b0, d) by {
            assert(occ(a, d) == occ(b, d));
        }
        lemma_ascending_equal(a0, b0);
        assert(a =~= a0.push(a.last()));
        assert(b =~= b0.push(b.last()));
    }
}

/// What is left of well-formed records without the last is well-formed,
/// and its terms come before the term of the last.
proof fn lemma_drop_last_wf(rs: Seq<Record>)
    requires
        records_ordered(rs),
        rs.len() > 0,
    ensures
        records_ordered(rs.drop_last()),
        forall|k: int|
            0 <= k < rs.len() - 1 ==> lex_lt((#[trigger] rs[k]).term, rs.last().term),
{
    let front = rs.drop_last();
    assert forall|i: int, j: int| 0 <= i < j < record_terms(front).len() implies lex_lt(
        #[trigger] record_terms(front)[i],
        #[trigger] record_terms(front)[j],
    ) by {
        assert(lex_lt(record_terms(rs)[i], record_terms(rs)[j]));
    }
    assert forall|i: int| 0 <= i < front.len() implies (#[trigger] front[i]).postings.len() > 0
        && ascending(front[i].postings) by {
        assert(front[i] == rs[i]);
    }
    assert forall|k: int| 0 <= k < rs.len() - 1 implies lex_lt(
        (#[trigger] rs[k]).term,
        rs.last().term,
    ) by {
        assert(lex_lt(record_terms(rs)[k], record_terms(rs)[rs.len() - 1]));
    }
}

/// A term whose posting list holds an identifier in `rs` has a record
/// there.
proof fn lemma_counted_term(rs: Seq<Record>, t: Seq<u8>, d: DocId) -> (k: int)
    requires
        pair_count(rs, t, d) >= 1,
    ensures
        0 <= k < rs.len(),
        rs[k].term == t,
{
    if forall|r: int| 0 <= r < rs.len() ==> (#[trigger] rs[r]).term != t {
        lemma_pair_count_absent(rs, t, d);
    }
    choose|r: int| 0 <= r < rs.len() && (#[trigger] rs[r]).term == t
}

/// Two well-formed sequences of records that hold each document equally
/// often for each term are equal.
pub proof fn lemma_records_unique(a: Seq<Record>, b: Seq<Record>)
    requires
        records_ordered(a),
        records_ordered(b),
        forall|t: Seq<u8>, d: DocId| pair_count(a, t, d) == pair_count(b, t, d),
    ensures
        a == b,
    decreases a.len(),
{
    if a.len() == 0 {
        if b.len() > 0 {
            let d0 = b[0].postings[0];
            lemma_pair_count_at(b, 0, d0);
            lemma_occ_positive(b[0].postings, 0);
            assert(pair_count(a, b[0].term, d0) == 0);
        }
        assert(a =~= b);
    } else {
        let ta = a.last().term;
        let da = a.last().postings[0];
        lemma_pair_count_at(a, a.len() - 1, da);
        lemma_occ_positive(a.last().postings, 0);
        assert(pair_count(b, ta, da) >= 1) by {
            assert(pair_count(a, ta, da) == pair_count(b, ta, da));
        }
        let jb = lemma_counted_term(b, ta, da);
        assert(b[jb].term == ta);
        let tb = b.last().term;
        let db = b.last().postings[0];
        lemma_pair_count_at(b, b.len() - 1, db);
        lemma_occ_positive(b.last().postings, 0);
        assert(pair_count(a, tb, db) >= 1) by {
            assert(pair_count(a, tb, db) == pair_count(b, tb, db));
        }
        let ia = lemma_counted_term(a, tb, db);
        assert(a[ia].term == tb);
        lemma_drop_last_wf(a);
        lemma_drop_last_wf(b);
        lemma_lex_trichotomy(ta, tb);
        assert(ta == tb);
        assert forall|d: DocId| occ(a.last().postings, d) == occ(b.last().postings, d) by {
            lemma_pair_count_at(a, a.len() - 1, d);
            lemma_pair_count_at(b, b.len() - 1, d);
            assert(pair_count(a, ta, d) == pair_count(b, ta, d));
        }
        lemma_ascending_equal(a.last().postings, b.last().postings);
        assert(a.last() == b.last());
        assert forall|t: Seq<u8>, d: DocId|
            pair_count(a.drop_last(), t, d) == pair_count(b.drop_last(), t, d) by {
            assert(pair_count(a, t, d) == pair_count(b, t, d));
        }
        lemma_records_unique(a.drop_last(), b.drop_last());
        assert(a =~= a.drop_last().push(a.last()));
        assert(b =~= b.drop_last().push(b.last()));
    }
}

/// Two sequences of terms that ascend strictly and hold the same terms
/// are equal.
pub proof fn lemma_terms_unique(a: Seq<Seq<u8>>, b: Seq<Seq<u8>>)
    requires
        strictly_ascending(a),
        strictly_ascending(b),
        forall|t: Seq<u8>| a.contains(t) <==> b.contains(t),
    ensures
        a == b,
    decreases a.len(),
{
    if a.len() == 0 {
        if b.len() > 0 {
            assert(b.contains(b[0]));
        }
        assert(a =~= b);
    } else {
        let ta = a.last();
        let tb = b.last();
        assert(a.contains(ta));
        assert(b.contains(ta));
        let jb = choose|j: int| 0 <= j < b.len() && b[j] == ta;
        assert(b.contains(tb));
        assert(a.contains(tb));
        let ia = choose|i: int| 0 <= i < a.len() && a[i] == tb;
        lemma_lex_trichotomy(ta, tb);
        if ia < a.len() - 1 {
            assert(lex_lt(a[ia], a[a.len() - 1]));
        }
        if jb < b.len() - 1 {
            assert(lex_lt(b[jb], b[b.len() - 1]));
        }
        assert(ta == tb);
        let a0 = a.drop_last();
        let b0 = b.drop_last();
        assert(strictly_ascending(a0)) by {
            assert forall|i: int, j: int| 0 <= i < j < a0.len() implies lex_lt(
                #[trigger] a0[i],
                #[trigger] a0[j],
            ) by {
                assert(lex_lt(a[i], a[j]));
            }
        }
        assert(strictly_ascending(b0)) by {
            assert forall|i: int, j: int| 0 <= i < j < b0.len() implies lex_lt(
                #[trigger] b0[i],
                #[trigger] b0[j],
            ) by {
                assert(lex_lt(b[i], b[j]));
            }
        }
        assert forall|t: Seq<u8>| a0.contains(t) <==> b0.contains(t) by {
            lemma_front_contains(a, t);
            lemma_front_contains(b, t);
            assert(a.contains(t) <==> b.contains(t));
        }
        lemma_terms_unique(a0, b0);
        assert(a =~= a0.push(ta));
        assert(b =~= b0.push(tb));
    }
}

/// What is left of strictly ascending terms without the last holds the
/// rest of the terms.
proof fn lemma_front_contains(s: Seq<Seq<u8>>, t: Seq<u8>)
    requires
        strictly_ascending(s),
        s.len() > 0,
    ensures
        s.drop_last().contains(t) <==> s.contains(t) && t != s.last(),
{
    let front = s.drop_last();
    if front.contains(t) {
        let i = choose|i: int| 0 <= i < front.len() && front[i] == t;
        assert(s[i] == t);
        assert(lex_lt(s[i], s[s.len() - 1]));
        lemma_lex_trichotomy(s[i], s.last());
    }
    if s.contains(t) && t != s.last() {
        let i = choose|i: int| 0 <= i < s.len() && s[i] == t;
        assert(front[i] == t);
    }
}

/// Building is repeatable, and the size of the blocks does not show in
/// what is built: two indexes of the same documents, whatever the sizes
/// of their blocks, hold the same content byte for byte, and their heads
/// hold the same terms, each with the same offset and the same number of
/// documents.
pub proof fn lemma_build_is_repeatable(a: InvertedIndex, b: InvertedIndex, docs: Seq<Doc>)
    requires
        a.indexes(docs),
        b.indexes(docs),
    ensures
        a.index_content_file@ == b.index_content_file@,
        a.head.terms() == b.head.terms(),
        forall|i: int|
            0 <= i < a.head.keys@.len() ==> (#[trigger] a.head.values@[i]).offset
                == b.head.values@[i].offset && a.head.values@[i].df == b.head.values@[i].df,
{
    let ra = parse_records(a.index_content_file@).unwrap();
    let rb = parse_records(b.index_content_file@).unwrap();
    assert forall|t: Seq<u8>, d: DocId| pair_count(ra, t, d) == pair_count(rb, t, d) by {
        assert(pair_count(ra, t, d) == hit(tokens(docs), t, d));
        assert(pair_count(rb, t, d) == hit(tokens(docs), t, d));
    }
    lemma_records_unique(ra, rb);
    lemma_encode_parsed_records(a.index_content_file@, 0);
    lemma_encode_parsed_records(b.index_content_file@, 0);
    assert(a.index_content_file@.subrange(0, a.index_content_file@.len() as int)
        =~= a.index_content_file@);
    assert(b.index_content_file@.subrange(0, b.index_content_file@.len() as int)
        =~= b.index_content_file@);
    lemma_head_terms(a.head, docs);
    lemma_head_terms(b.head, docs);
    lemma_terms_unique(a.head.terms(), b.head.terms());
    assert(a.head.terms().len() == a.head.keys@.len());
    assert(b.head.terms().len() == b.head.keys@.len());
    assert forall|i: int| 0 <= i < a.head.keys@.len() implies (
    #[trigger] a.head.values@[i]).offset == b.head.values@[i].offset && a.head.values@[i].df
        == b.head.values@[i].df by {
        a.head.lemma_index(i);
        b.head.lemma_index(i);
        assert(a.head.terms()[i] == b.head.terms()[i]);
    }
}

/// The head of an index holds the terms of its documents.
proof fn lemma_head_terms(head: TermMap<HeadValue>, docs: Seq<Doc>)
    requires
        head_counts(head, docs),
    ensures
        forall|t: Seq<u8>| head.terms().contains(t) <==> doc_freq(docs, t) >= 1,
{
    assert forall|t: Seq<u8>| head.terms().contains(t) <==> doc_freq(docs, t) >= 1 by {
        if head.terms().contains(t) {
            let i = choose|i: int| 0 <= i < head.terms().len() && head.terms()[i] == t;
            assert(head.keys@[i]@ == t);
            assert(head.has(t));
            assert(head@.contains_key(t));
        }
        if doc_freq(docs, t) >= 1 {
            assert(head@.contains_key(t));
            let i = head.index_of(t);
            assert(head.terms()[i] == t);
        }
    }
}

/// In an engine over an index of documents that come in the order of
/// their identifiers, the posting list of a term that the head knows holds the
/// identifiers of the documents that hold the term.
pub proof fn lemma_engine_posting_list(engine: Engine, docs: Seq<Doc>, t: Seq<u8>)
    requires
        engine.inverted_index.indexes(docs),
        ascending_docs(docs),
        engine.inverted_index.head@.contains_key(t),
    ensures
        engine.posting_list(t) == Some(docs_with(docs, t)),
        strictly_ascending_ids(docs_with(docs, t)),
{
    let head = engine.inverted_index.head;
    let i = head.index_of(t);
    assert(head.has(t));
    head.lemma_index(i);
    lemma_posting_list_is_exact(engine.inverted_index, docs, i);
    lemma_docs_with(docs, t);
}

/// In an engine over such an index the candidates of a query are the documents that
/// hold every word of the query that occurs in some document, in the
/// order of their identifiers; and there are no candidates at all only
/// where no word of the query occurs in any document.
pub proof fn lemma_candidates_hold_all_words(engine: Engine, docs: Seq<Doc>, terms: Seq<Seq<u8>>)
    requires
        engine.inverted_index.indexes(docs),
        ascending_docs(docs),
    ensures
        match engine.candidates(terms) {
            Err(_) => false,
            Ok(None) => forall|j: int|
                0 <= j < terms.len() ==> doc_freq(docs, #[trigger] terms[j]) == 0,
            Ok(Some(c)) => {
                &&& strictly_ascending_ids(c)
                &&& forall|d: DocId| #[trigger]
                    c.contains(d) <==> forall|j: int|
                        0 <= j < terms.len() && doc_freq(docs, #[trigger] terms[j]) >= 1
                            ==> docs_with(docs, terms[j]).contains(d)
            },
        },
{
    assert(known_lists_ascend(engine, terms)) by {
        assert forall|j: int|
            0 <= j < terms.len() && engine.inverted_index.head@.contains_key(
                #[trigger] terms[j],
            ) implies engine.posting_list(terms[j]) is Some && strictly_ascending_ids(
            engine.posting_list(terms[j]).unwrap(),
        ) by {
            lemma_engine_posting_list(engine, docs, terms[j]);
        }
    }
    lemma_candidates_are_intersection(engine, terms);
    match engine.candidates(terms) {
        Err(_) => {},
        Ok(None) => {},
        Ok(Some(c)) => {
            assert forall|d: DocId| #[trigger]
                c.contains(d) <==> forall|j: int|
                    0 <= j < terms.len() && doc_freq(docs, #[trigger] terms[j]) >= 1
                        ==> docs_with(docs, terms[j]).contains(d) by {
                assert(c.contains(d) <==> in_all_known(engine, terms, d));
                if in_all_known(engine, terms, d) {
                    assert forall|j: int|
                        0 <= j < terms.len() && doc_freq(
                            docs,
                            #[trigger] terms[j],
                        ) >= 1 implies docs_with(docs, terms[j]).contains(d) by {
                        lemma_engine_posting_list(engine, docs, terms[j]);
                    }
                }
                if forall|j: int|
                    0 <= j < terms.len() && doc_freq(docs, #[trigger] terms[j]) >= 1
                        ==> docs_with(docs, terms[j]).contains(d) {
                    assert forall|j: int|
                        0 <= j < terms.len() && engine.inverted_index.head@.contains_key(
                            #[trigger] terms[j],
                        ) implies engine.posting_list(terms[j]).unwrap().contains(d) by {
                        lemma_engine_posting_list(engine, docs, terms[j]);
                    }
                }
            }
        },
    }
}

/// In an engine over such an index a document with words is a candidate of the query
/// that is made of its words.
pub proof fn lemma_document_is_candidate(engine: Engine, docs: Seq<Doc>, k: int)
    requires
        engine.inverted_index.indexes(docs),
        ascending_docs(docs),
        0 <= k < docs.len(),
        docs[k].words@.len() > 0,
    ensures
        engine.candidates(words_as_terms(docs[k].words@)) is Ok,
        engine.candidates(words_as_terms(docs[k].words@)).unwrap() is Some,
        engine.candidates(words_as_terms(docs[k].words@)).unwrap().unwrap().contains(docs[k]._id),
{
    let terms = words_as_terms(docs[k].words@);
    let d = docs[k]._id;
    lemma_candidates_hold_all_words(engine, docs, terms);
    lemma_count_in_positive(terms, 0);
    lemma_doc_freq_positive(docs, k, terms[0]);
    match engine.candidates(terms) {
        Err(_) => {},
        Ok(None) => {},
        Ok(Some(c)) => {
            assert forall|j: int|
                0 <= j < terms.len() && doc_freq(docs, #[trigger] terms[j]) >= 1 implies docs_with(
                docs,
                terms[j],
            ).contains(d) by {
                lemma_count_in_positive(terms, j);
                lemma_docs_with(docs, terms[j]);
                assert(docs[k]._id == d && doc_has(docs[k], terms[j]));
                let i = lemma_occ_witness(docs_with(docs, terms[j]), d);
                assert(docs_with(docs, terms[j])[i] == d);
            }
        },
    }
}

/// A term that one of the documents holds is counted.
pub proof fn lemma_doc_freq_positive(docs: Seq<Doc>, k: int, t: Seq<u8>)
    requires
        0 <= k < docs.len(),
        doc_has(docs[k], t),
    ensures
        doc_freq(docs, t) >= 1,
    decreases docs.len(),
{
    if k < docs.len() - 1 {
        lemma_doc_freq_positive(docs.drop_last(), k, t);
    }
}

/// `f` gives one weight for one count.
pub open spec fn gives_one_weight<F: Fn(u64) -> u64>(f: F) -> bool {
    forall|c: u64, v: u64, w: u64| call_ensures(f, (c,), v) && call_ensures(f, (c,), w) ==> v == w
}

/// Entries of the same words with weights of one function are the same
/// entries.
proof fn lemma_weighted_unique<F: Fn(u64) -> u64>(
    f: F,
    words: Seq<Seq<u8>>,
    a: Seq<ForwardEntry>,
    b: Seq<ForwardEntry>,
)
    requires
        gives_one_weight(f),
        weighted(f, words, a),
        weighted(f, words, b),
    ensures
        a == b,
{
    assert forall|j: int| 0 <= j < a.len() implies a[j] == b[j] by {
        assert(a[j].term == words[j] && b[j].term == words[j]);
        assert(call_ensures(f, (count_in(words, words[j]) as u64,), a[j].tf));
        assert(call_ensures(f, (count_in(words, words[j]) as u64,), b[j].tf));
    }
    assert(a =~= b);
}

/// The bytes of the record of the `k`-th document in a forward index.
proof fn lemma_forward_record_bytes<F: Fn(u64) -> u64>(index: Index, docs: Seq<Doc>, f: F, k: int)
    requires
        index.holds(docs, f),
        0 <= k < docs.len(),
    ensures
        0 <= forward_len(docs.take(k)),
        forward_len(docs.take(k + 1)) <= index.index_content_file@.len(),
        forward_len(docs.take(k + 1)) == forward_len(docs.take(k)) + 8 + words_len(
            words_as_terms(docs[k].words@),
        ),
        parse_forward_at(index.index_content_file@, forward_len(docs.take(k))) is Some,
        weighted(
            f,
            words_as_terms(docs[k].words@),
            parse_forward_at(index.index_content_file@, forward_len(docs.take(k))).unwrap(),
        ),
        index.index_content_file@.subrange(
            forward_len(docs.take(k)),
            forward_len(docs.take(k + 1)),
        ) == crate::forward::encode_forward(
            parse_forward_at(index.index_content_file@, forward_len(docs.take(k))).unwrap(),
        ),
{
    lemma_forward_len_take(docs, k);
    lemma_forward_len_take(docs, k + 1);
    let data = index.index_content_file@;
    let p = forward_len(docs.take(k));
    let words = words_as_terms(docs[k].words@);
    assert(docs.take(k + 1).drop_last() =~= docs.take(k));
    assert(docs.take(k + 1).last() == docs[k]);
    let es = parse_forward_at(data, p).unwrap();
    lemma_entries_len(es, words);
    lemma_encode_parsed_forward(data, p);
}

/// Two byte strings that agree between each two neighbours of `n + 1`
/// ascending places, the first of which is their start, agree up to the
/// last of the places.
proof fn lemma_pieces_equal(a: Seq<u8>, b: Seq<u8>, cuts: spec_fn(int) -> int, n: int)
    requires
        0 <= n,
        cuts(0) == 0,
        forall|k: int|
            0 <= k < n ==> cuts(k) <= #[trigger] cuts(k + 1) && cuts(k + 1) <= a.len() && cuts(
                k + 1,
            ) <= b.len() && a.subrange(cuts(k), cuts(k + 1)) == b.subrange(cuts(k), cuts(k + 1)),
    ensures
        0 <= cuts(n),
        a.subrange(0, cuts(n)) == b.subrange(0, cuts(n)),
    decreases n,
{
    if n == 0 {
        assert(a.subrange(0, 0) =~= b.subrange(0, 0));
    } else {
        lemma_pieces_equal(a, b, cuts, n - 1);
        let p = cuts(n - 1);
        let q = cuts(n - 1 + 1);
        assert(a.subrange(p, q) == b.subrange(p, q));
        assert(a.subrange(0, p) + a.subrange(p, q) =~= a.subrange(0, q));
        assert(b.subrange(0, p) + b.subrange(p, q) =~= b.subrange(0, q));
    }
}

/// Building the forward index is repeatable: two indexes of the same
/// documents hold the same head, and, where the weights are given by a
/// function that gives one weight for one count, the same content byte for
/// byte.
pub proof fn lemma_forward_build_is_repeatable<F: Fn(u64) -> u64>(
    a: Index,
    b: Index,
    docs: Seq<Doc>,
    f: F,
)
    requires
        a.holds(docs, f),
        b.holds(docs, f),
    ensures
        a.index_head_file@ == b.index_head_file@,
        a.head@ == b.head@,
        gives_one_weight(f) ==> a.index_content_file@ == b.index_content_file@,
{
    if gives_one_weight(f) {
        let da = a.index_content_file@;
        let db = b.index_content_file@;
        let cuts = |k: int| forward_len(docs.take(k));
        assert(docs.take(0) =~= Seq::<Doc>::empty());
        assert forall|k: int| 0 <= k < docs.len() implies cuts(k) <= #[trigger] cuts(k + 1) && cuts(
            k + 1,
        ) <= da.len() && cuts(k + 1) <= db.len() && da.subrange(cuts(k), cuts(k + 1))
            == db.subrange(cuts(k), cuts(k + 1)) by {
            lemma_forward_record_bytes(a, docs, f, k);
            lemma_forward_record_bytes(b, docs, f, k);
            lemma_words_len_nonneg(words_as_terms(docs[k].words@));
            lemma_weighted_unique(
                f,
                words_as_terms(docs[k].words@),
                parse_forward_at(da, forward_len(docs.take(k))).unwrap(),
                parse_forward_at(db, forward_len(docs.take(k))).unwrap(),
            );
        }
        lemma_pieces_equal(da, db, cuts, docs.len() as int);
        assert(docs.take(docs.len() as int) =~= docs);
        assert(da.subrange(0, da.len() as int) =~= da);
        assert(db.subrange(0, db.len() as int) =~= db);
    }
}

/// Heads with the same terms, offsets and inverse document frequencies
/// have the same bytes.
pub proof fn lemma_encode_head_same(a: TermMap<HeadValue>, b: TermMap<HeadValue>, n: int)
    requires
        0 <= n <= a.keys@.len(),
        a.terms() == b.terms(),
        a.values@.len() >= n,
        b.values@.len() >= n,
        forall|i: int|
            0 <= i < n ==> (#[trigger] a.values@[i]).offset == b.values@[i].offset
                && a.values@[i].idf == b.values@[i].idf,
    ensures
        encode_head(a, n) == encode_head(b, n),
    decreases n,
{
    assert(a.terms().len() == a.keys@.len());
    assert(b.terms().len() == b.keys@.len());
    if n > 0 {
        lemma_encode_head_same(a, b, n - 1);
        assert(a.terms()[n - 1] == a.keys@[n - 1]@);
        assert(b.terms()[n - 1] == b.keys@[n - 1]@);
        assert(a.values@[n - 1].offset == b.values@[n - 1].offset);
    }
}

/// The head files of two indexes of the same documents are the same bytes
/// where the two agree on the inverse document frequency of each term.
pub proof fn lemma_head_file_is_repeatable(a: InvertedIndex, b: InvertedIndex, docs: Seq<Doc>)
    requires
        a.indexes(docs),
        b.indexes(docs),
        forall|i: int|
            0 <= i < a.head.keys@.len() ==> (#[trigger] a.head.values@[i]).idf
                == b.head.values@[i].idf,
    ensures
        a.index_head_file@ == b.index_head_file@,
{
    lemma_build_is_repeatable(a, b, docs);
    assert(a.head.terms().len() == a.head.keys@.len());
    assert(b.head.terms().len() == b.head.keys@.len());
    lemma_encode_head_same(a.head, b.head, a.head.keys@.len() as int);
}


/// The head entries that a head file holds are those of the file with more
/// behind it too.
proof fn lemma_head_entries_stable(data: Seq<u8>, more: Seq<u8>, n: int)
    requires
        0 <= n,
        20 * n <= data.len(),
    ensures
        head_entries(data + more, n) == head_entries(data, n),
    decreases n,
{
    if n > 0 {
        lemma_head_entries_stable(data, more, n - 1);
        let long = data + more;
        let p = 20 * (n - 1);
        assert(forall|k: int| p <= k < p + 20 ==> long[k] == data[k]);
        assert(doc_id_at(long, p) == doc_id_at(data, p));
        assert(u64_at(long, p + 12) == u64_at(data, p + 12));
    }
}

/// Storing and loading the head of a forward index gives the head back:
/// the head file of documents holds twenty bytes for each document, and
/// the entries that are read from it are the head of the documents.
pub proof fn lemma_forward_head_roundtrip(docs: Seq<Doc>)
    requires
        forward_len(docs) <= u64::MAX,
    ensures
        encode_forward_head(docs).len() == 20 * docs.len(),
        head_entries(encode_forward_head(docs), docs.len() as int) == forward_head(docs),
    decreases docs.len(),
{
    if docs.len() > 0 {
        let front = docs.drop_last();
        let n = docs.len() as int;
        lemma_forward_len_take(docs, n - 1);
        assert(docs.take(n - 1) =~= front);
        lemma_forward_head_roundtrip(front);
        let id = docs.last()._id;
        let offset = forward_len(front) as u64;
        let before = encode_forward_head(front);
        let entry = encode_doc_id(id) + be_u64(offset);
        let data = encode_forward_head(docs);
        assert(data =~= before + entry);
        lemma_head_entries_stable(before, entry, n - 1);
        let p = 20 * (n - 1);
        assert(data.subrange(p, p + 12) =~= encode_doc_id(id));
        lemma_doc_id_at_encode(data, p, id);
        assert(data.subrange(p + 12, p + 20) =~= be_u64(offset));
        lemma_u64_at_be(data, p + 12, offset);
    }
}


/// The first `n` entries of the head as they are stored.
pub open spec fn stored_entries(head: TermMap<HeadValue>, n: int) -> Seq<StoredEntry> {
    Seq::new(
        n as nat,
        |i: int|
            StoredEntry {
                term: head.keys@[i]@,
                offset: head.values@[i].offset,
                idf: head.values@[i].idf,
            },
    )
}

/// The bytes of stored entries, one after the other.
pub open spec fn encode_stored(es: Seq<StoredEntry>) -> Seq<u8>
    decreases es.len(),
{
    if es.len() == 0 {
        Seq::empty()
    } else {
        encode_stored(es.drop_last()) + encode_head_entry(
            es.last().term,
            HeadValue { offset: es.last().offset, df: 0, idf: es.last().idf },
        )
    }
}

/// The bytes of the first `n` entries of a head are the bytes of its
/// first `n` stored entries.
proof fn lemma_encode_head_is_stored(head: TermMap<HeadValue>, n: int)
    requires
        0 <= n <= head.keys@.len(),
        n <= head.values@.len(),
    ensures
        encode_head(head, n) == encode_stored(stored_entries(head, n)),
    decreases n,
{
    if n > 0 {
        lemma_encode_head_is_stored(head, n - 1);
        assert(stored_entries(head, n).drop_last() =~= stored_entries(head, n - 1));
    } else {
        assert(stored_entries(head, n) =~= Seq::<StoredEntry>::empty());
    }
}

/// The bytes of stored entries begin with the bytes of the first entry.
proof fn lemma_encode_stored_front(e: StoredEntry, rest: Seq<StoredEntry>)
    ensures
        encode_stored(seq![e] + rest) == encode_head_entry(
            e.term,
            HeadValue { offset: e.offset, df: 0, idf: e.idf },
        ) + encode_stored(rest),
    decreases rest.len(),
{
    let all = seq![e] + rest;
    let first = encode_head_entry(e.term, HeadValue { offset: e.offset, df: 0, idf: e.idf });
    if rest.len() == 0 {
        assert(all.drop_last() =~= Seq::<StoredEntry>::empty());
        assert(encode_stored(all.drop_last()) =~= Seq::<u8>::empty());
        assert(encode_stored(all) =~= first + encode_stored(rest));
    } else {
        lemma_encode_stored_front(e, rest.drop_last());
        assert(all.drop_last() =~= seq![e] + rest.drop_last());
        assert(all.last() == rest.last());
        assert(encode_stored(all) =~= first + encode_stored(rest));
    }
}

/// Reading where a stored entry was written gives that entry.
proof fn lemma_parse_stored_entry(data: Seq<u8>, p: int, e: StoredEntry)
    requires
        0 <= p,
        e.term.len() <= u64::MAX,
        p + 24 + e.term.len() <= data.len(),
        data.subrange(p, p + 24 + e.term.len()) == encode_head_entry(
            e.term,
            HeadValue { offset: e.offset, df: 0, idf: e.idf },
        ),
    ensures
        parse_head_entry_at(data, p) == Some((e, p + 24 + e.term.len())),
{
    let wl = e.term.len() as int;
    let whole = data.subrange(p, p + 24 + wl);
    assert(data.subrange(p, p + 8) =~= be_u64(wl as u64)) by {
        assert(whole.subrange(0, 8) =~= be_u64(wl as u64));
        assert(whole.subrange(0, 8) =~= data.subrange(p, p + 8));
    }
    lemma_u64_at_be(data, p, wl as u64);
    assert(data.subrange(p + 8, p + 8 + wl) =~= e.term) by {
        assert(whole.subrange(8, 8 + wl) =~= e.term);
        assert(whole.subrange(8, 8 + wl) =~= data.subrange(p + 8, p + 8 + wl));
    }
    assert(data.subrange(p + 8 + wl, p + 16 + wl) =~= be_u64(e.offset)) by {
        assert(whole.subrange(8 + wl, 16 + wl) =~= be_u64(e.offset));
        assert(whole.subrange(8 + wl, 16 + wl) =~= data.subrange(p + 8 + wl, p + 16 + wl));
    }
    lemma_u64_at_be(data, p + 8 + wl, e.offset);
    assert(data.subrange(p + 16 + wl, p + 24 + wl) =~= be_u64(e.idf)) by {
        assert(whole.subrange(16 + wl, 24 + wl) =~= be_u64(e.idf));
        assert(whole.subrange(16 + wl, 24 + wl) =~= data.subrange(p + 16 + wl, p + 24 + wl));
    }
    lemma_u64_at_be(data, p + 16 + wl, e.idf);
}

/// Reading where stored entries were written, up to the end of the data,
/// gives those entries.
proof fn lemma_parse_stored(data: Seq<u8>, p: int, es: Seq<StoredEntry>)
    requires
        0 <= p <= data.len(),
        forall|i: int| 0 <= i < es.len() ==> (#[trigger] es[i]).term.len() <= u64::MAX,
        data.subrange(p, data.len() as int) == encode_stored(es),
    ensures
        parse_head_from(data, p) == Some(es),
    decreases es.len(),
{
    let tail = data.subrange(p, data.len() as int);
    assert(tail.len() == data.len() - p);
    if es.len() == 0 {
        assert(es =~= Seq::<StoredEntry>::empty());
        assert(p == data.len());
    } else {
        let e = es[0];
        let rest = es.skip(1);
        assert(es =~= seq![e] + rest);
        lemma_encode_stored_front(e, rest);
        let wl = e.term.len() as int;
        let first = encode_head_entry(e.term, HeadValue { offset: e.offset, df: 0, idf: e.idf });
        assert(first.len() == 24 + wl);
        assert(tail.len() == first.len() + encode_stored(rest).len());
        let next = p + 24 + wl;
        assert(data.subrange(p, next) =~= first) by {
            assert(tail.subrange(0, 24 + wl) =~= first);
            assert(tail.subrange(0, 24 + wl) =~= data.subrange(p, next));
        }
        lemma_parse_stored_entry(data, p, e);
        assert(data.subrange(next, data.len() as int) =~= encode_stored(rest)) by {
            assert(tail.subrange(24 + wl, tail.len() as int) =~= encode_stored(rest));
            assert(tail.subrange(24 + wl, tail.len() as int) =~= data.subrange(
                next,
                data.len() as int,
            ));
        }
        assert forall|i: int| 0 <= i < rest.len() implies (#[trigger] rest[i]).term.len()
            <= u64::MAX by {
            assert(rest[i] == es[i + 1]);
        }
        lemma_parse_stored(data, next, rest);
    }
}

/// What the first `n` stored entries of a head give is what the head
/// holds for its first `n` terms, but for the number of documents.
proof fn lemma_stored_head_of(head: TermMap<HeadValue>, n: int, t: Seq<u8>)
    requires
        head.wf(),
        0 <= n <= head.keys@.len(),
    ensures
        stored_head(stored_entries(head, n)).contains_key(t) <==> exists|i: int|
            0 <= i < n && #[trigger] head.keys@[i]@ == t,
        stored_head(stored_entries(head, n)).contains_key(t) ==> stored_head(
            stored_entries(head, n),
        )[t] == (HeadValue {
            offset: head.values@[head.index_of(t)].offset,
            df: 0,
            idf: head.values@[head.index_of(t)].idf,
        }),
    decreases n,
{
    if n > 0 {
        lemma_stored_head_of(head, n - 1, t);
        assert(stored_entries(head, n).drop_last() =~= stored_entries(head, n - 1));
        assert(stored_entries(head, n).last().term == head.keys@[n - 1]@);
        head.lemma_index(n - 1);
        if exists|i: int| 0 <= i < n - 1 && #[trigger] head.keys@[i]@ == t {
            let i = choose|i: int| 0 <= i < n - 1 && #[trigger] head.keys@[i]@ == t;
            assert(0 <= i < n && head.keys@[i]@ == t);
            head.lemma_index(i);
        }
        if exists|i: int| 0 <= i < n && #[trigger] head.keys@[i]@ == t {
            let i = choose|i: int| 0 <= i < n && #[trigger] head.keys@[i]@ == t;
            head.lemma_index(i);
            if i < n - 1 {
                assert(0 <= i < n - 1 && head.keys@[i]@ == t);
            }
        }
        if head.keys@[n - 1]@ == t {
            assert(0 <= n - 1 < n && head.keys@[n - 1]@ == t);
        }
    }
}

/// Storing and loading the head of an inverted index gives the head back,
/// but for the numbers of documents, which are not stored: the entries
/// that are read from the bytes of the head hold the terms of the head,
/// each with its offset and its inverse document frequency.
pub proof fn lemma_head_roundtrip(head: TermMap<HeadValue>)
    requires
        head.wf(),
        forall|i: int| 0 <= i < head.keys@.len() ==> (#[trigger] head.keys@[i])@.len() <= u64::MAX,
    ensures
        parse_head_from(encode_head(head, head.keys@.len() as int), 0) == Some(
            stored_entries(head, head.keys@.len() as int),
        ),
        forall|t: Seq<u8>|
            #![trigger head@.contains_key(t)]
            stored_head(stored_entries(head, head.keys@.len() as int)).contains_key(t)
                <==> head@.contains_key(t),
        forall|t: Seq<u8>|
            #![trigger head@.contains_key(t)]
            head@.contains_key(t) ==> stored_head(
                stored_entries(head, head.keys@.len() as int),
            )[t] == (HeadValue { offset: head@[t].offset, df: 0, idf: head@[t].idf }),
{
    let n = head.keys@.len() as int;
    let es = stored_entries(head, n);
    let data = encode_head(head, n);
    lemma_encode_head_is_stored(head, n);
    assert(data.subrange(0, data.len() as int) =~= data);
    lemma_parse_stored(data, 0, es);
    assert forall|t: Seq<u8>|
        #![trigger head@.contains_key(t)]
        stored_head(es).contains_key(t) <==> head@.contains_key(t) by {
        lemma_stored_head_of(head, n, t);
    }
    assert forall|t: Seq<u8>|
        #![trigger head@.contains_key(t)]
        head@.contains_key(t) implies stored_head(es)[t] == (HeadValue {
            offset: head@[t].offset,
            df: 0,
            idf: head@[t].idf,
        }) by {
        lemma_stored_head_of(head, n, t);
    }
}


/// Where there are no more documents than the engine gives back, every
/// one of them is in the ranked answer.
pub proof fn lemma_answer_holds_every_candidate<
    F: Fn(&Vec<QueryWeight>, &Vec<DocWeight>, &Vec<(usize, usize)>) -> u64,
>(
    engine: Engine,
    qvec: TermMap<QueryWeight>,
    cosine: F,
    docs: Seq<DocId>,
    result: Seq<DocId>,
    k: int,
)
    requires
        engine.ranked(qvec, cosine, docs, result),
        docs.len() <= engine.top_n,
        0 <= k < docs.len(),
    ensures
        result.contains(docs[k]),
{
    let scored = choose|scored: Seq<Scored>|
        {
            &&& scored.len() == docs.len()
            &&& forall|i: int|
                0 <= i < docs.len() ==> (#[trigger] scored[i]).doc == docs[i] && engine.scored_ok(
                    qvec,
                    cosine,
                    docs[i],
                    scored[i].score,
                )
            &&& result == #[trigger] best_first(scored, engine.top_n as nat)
        };
    lemma_best_first_holds_all(scored, engine.top_n as nat, k);
    assert(scored[k].doc == docs[k]);
}


/// Every document of a ranked answer is one of the documents that were
/// ranked.
pub proof fn lemma_answer_holds_candidates_only<
    F: Fn(&Vec<QueryWeight>, &Vec<DocWeight>, &Vec<(usize, usize)>) -> u64,
>(
    engine: Engine,
    qvec: TermMap<QueryWeight>,
    cosine: F,
    docs: Seq<DocId>,
    result: Seq<DocId>,
    i: int,
)
    requires
        engine.ranked(qvec, cosine, docs, result),
        0 <= i < result.len(),
    ensures
        docs.contains(result[i]),
{
    let scored = choose|scored: Seq<Scored>|
        {
            &&& scored.len() == docs.len()
            &&& forall|i: int|
                0 <= i < docs.len() ==> (#[trigger] scored[i]).doc == docs[i] && engine.scored_ok(
                    qvec,
                    cosine,
                    docs[i],
                    scored[i].score,
                )
            &&& result == #[trigger] best_first(scored, engine.top_n as nat)
        };
    lemma_best_items_chosen(scored, engine.top_n as nat, i);
    let item = best_items(scored, engine.top_n as nat)[i];
    let k = choose|k: int| 0 <= k < scored.len() && scored[k] == item;
    assert(scored[k].doc == docs[k]);
}


/// In an index of documents, the offset of each term of the head stands
/// inside the content behind the term itself, which stands behind its
/// length; and the posting list behind the offset stands inside the
/// content to its last identifier.
pub proof fn lemma_offset_frames_term(index: InvertedIndex, docs: Seq<Doc>, i: int)
    requires
        index.indexes(docs),
        0 <= i < index.head.keys@.len(),
    ensures
        ({
            let data = index.index_content_file@;
            let term = index.head.keys@[i]@;
            let offset = index.head.values@[i].offset as int;
            &&& 8 + term.len() <= offset
            &&& offset + 8 <= data.len()
            &&& offset + 8 + 12 * u64_at(data, offset) <= data.len()
            &&& data.subrange(offset - term.len(), offset) == term
            &&& u64_at(data, offset - term.len() - 8) == term.len()
            &&& posting_list_at(data, offset) is Some
        }),
{
    let data = index.index_content_file@;
    let recs = parse_records(data).unwrap();
    let r = lemma_head_term_has_record(index, docs, i);
    lemma_last_offset_at(recs, r);
    lemma_nth_record(data, 0, r);
    lemma_offset_points(data, r);
}

/// The words of `terms` that the head knows, in their order.
pub open spec fn known_terms(engine: Engine, terms: Seq<Seq<u8>>) -> Seq<Seq<u8>>
    decreases terms.len(),
{
    if terms.len() == 0 {
        Seq::empty()
    } else if engine.inverted_index.head@.contains_key(terms.last()) {
        known_terms(engine, terms.drop_last()).push(terms.last())
    } else {
        known_terms(engine, terms.drop_last())
    }
}

/// The words of a query that the head does not know have no part in the
/// candidates: the query without them has the same candidates, or fails
/// as the query does.
pub proof fn lemma_unknown_terms_are_passed_over(engine: Engine, terms: Seq<Seq<u8>>)
    ensures
        engine.candidates(terms) == engine.candidates(known_terms(engine, terms)),
    decreases terms.len(),
{
    if terms.len() > 0 {
        lemma_unknown_terms_are_passed_over(engine, terms.drop_last());
        if engine.inverted_index.head@.contains_key(terms.last()) {
            let known = known_terms(engine, terms);
            assert(known.drop_last() =~= known_terms(engine, terms.drop_last()));
            assert(known.last() == terms.last());
        }
    }
}

/// The answer to a query is made of its candidates: where the candidates
/// ascend strictly, no document stands twice in the ranked answer, every
/// document of the answer is a candidate, and the answer holds as many
/// documents as the engine gives back, or all the candidates where they
/// are fewer.
pub proof fn lemma_answer_is_of_candidates<
    F: Fn(&Vec<QueryWeight>, &Vec<DocWeight>, &Vec<(usize, usize)>) -> u64,
>(engine: Engine, qvec: TermMap<QueryWeight>, cosine: F, docs: Seq<DocId>, result: Seq<DocId>)
    requires
        engine.ranked(qvec, cosine, docs, result),
        strictly_ascending_ids(docs),
    ensures
        result.len() == if engine.top_n <= docs.len() {
            engine.top_n as int
        } else {
            docs.len() as int
        },
        forall|i: int| 0 <= i < result.len() ==> docs.contains(#[trigger] result[i]),
        forall|i: int, j: int| 0 <= i < j < result.len() ==> result[i] != result[j],
        docs.len() <= engine.top_n ==> forall|k: int|
            0 <= k < docs.len() ==> result.contains(#[trigger] docs[k]),
{
    let scored = choose|scored: Seq<Scored>|
        {
            &&& scored.len() == docs.len()
            &&& forall|i: int|
                0 <= i < docs.len() ==> (#[trigger] scored[i]).doc == docs[i] && engine.scored_ok(
                    qvec,
                    cosine,
                    docs[i],
                    scored[i].score,
                )
            &&& result == #[trigger] best_first(scored, engine.top_n as nat)
        };
    lemma_best_first_len(scored, engine.top_n as nat);
    assert(distinct_docs(scored)) by {
        assert forall|i: int, j: int| 0 <= i < j < scored.len() implies (
        #[trigger] scored[i]).doc != (#[trigger] scored[j]).doc by {
            assert(docs[i].key() < docs[j].key());
        }
    }
    assert forall|i: int| 0 <= i < result.len() implies docs.contains(#[trigger] result[i]) by {
        lemma_answer_holds_candidates_only(engine, qvec, cosine, docs, result, i);
    }
    assert forall|i: int, j: int| 0 <= i < j < result.len() implies result[i] != result[j] by {
        lemma_best_first_distinct(scored, engine.top_n as nat, i, j);
    }
    if docs.len() <= engine.top_n {
        assert forall|k: int| 0 <= k < docs.len() implies result.contains(#[trigger] docs[k]) by {
            lemma_answer_holds_every_candidate(engine, qvec, cosine, docs, result, k);
        }
    }
}

} // verus!
