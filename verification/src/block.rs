//! A block while it is filled, and its records when it is written.

use crate::bytes::lemma_lex_trichotomy;
use crate::corpus::{
    ascending_tokens, dedup, hit, holds, holds_term, ids_of, lemma_dedup_facts, lemma_ids_of_absent,
    lemma_ids_of_facts, lemma_ids_of_push, Token,
};
use crate::db::DocId;
use crate::inverted_index::InvertedIndex;
use crate::postings::{
    ascending, lemma_ascending_strict, occ, pair_count, record_terms, records_ordered, records_wf,
    strictly_ascending_ids,
};
use crate::record::{encode_records, lemma_encode_records_push, record_fits, records_fit, Record};
use crate::term_map::TermMap;
use vstd::prelude::*;

verus! {

/// The records of a block: its terms in ascending order, each with its
/// posting list, from which the identifiers that repeat the one before them
/// are removed.
pub open spec fn block_records(block: TermMap<Vec<DocId>>) -> Seq<Record> {
    Seq::new(
        block.keys@.len(),
        |i: int| Record { term: block.keys@[i]@, postings: dedup(block.values@[i]@) },
    )
}

/// The block holds the terms that occur among `ts`, each with the
/// documents of its occurrences.
pub open spec fn block_matches(block: TermMap<Vec<DocId>>, ts: Seq<Token>) -> bool {
    &&& block.wf()
    &&& forall|t: Seq<u8>| #[trigger] block.has(t) <==> holds_term(ts, t)
    &&& forall|i: int|
        0 <= i < block.keys@.len() ==> (#[trigger] block.values@[i])@ == ids_of(
            ts,
            block.keys@[i]@,
        )
}

/// The posting list that the block holds for the term: empty for a term
/// that it does not hold.
pub open spec fn list_of(block: TermMap<Vec<DocId>>, t: Seq<u8>) -> Seq<DocId> {
    if block.has(t) {
        block.values@[block.index_of(t)]@
    } else {
        Seq::empty()
    }
}

/// `v` without the identifiers that repeat the one before them.
pub fn dedup_adjacent(v: &Vec<DocId>) -> (r: Vec<DocId>)
    ensures
        r@ == dedup(v@),
{
    let mut r: Vec<DocId> = Vec::new();
    let mut i: usize = 0;
    while i < v.len()
        invariant
            i <= v@.len(),
            r@ == dedup(v@.take(i as int)),
        decreases v.len() - i,
    {
        proof {
            assert(v@.take(i + 1).drop_last() =~= v@.take(i as int));
            assert(v@.take(i + 1).last() == v@[i as int]);
            if i >= 1 {
                assert(v@.take(i + 1)[i - 1] == v@[i - 1]);
            }
        }
        if i == 0 || v[i - 1] != v[i] {
            r.push(v[i]);
        }
        i = i + 1;
    }
    proof {
        assert(v@.take(i as int) =~= v@);
    }
    r
}

/// Adds one occurrence of `term` in document `id` to the block.
pub fn add_posting(block: &mut TermMap<Vec<DocId>>, term: &Vec<u8>, id: DocId)
    requires
        old(block).wf(),
    ensures
        final(block).wf(),
        forall|t: Seq<u8>| #[trigger] final(block).has(t) <==> old(block).has(t) || t == term@,
        forall|t: Seq<u8>| #[trigger]
            list_of(*final(block), t) == if t == term@ {
                list_of(*old(block), t).push(id)
            } else {
                list_of(*old(block), t)
            },
        forall|ts: Seq<Token>|
            block_matches(*old(block), ts) ==> block_matches(
                *final(block),
                #[trigger] ts.push(Token { term: term@, id }),
            ),
{
    let (found, idx) = block.find(term.as_slice());
    if found {
        let ghost before = *block;
        block.values[idx].push(id);
        proof {
            assert(block.terms() =~= before.terms());
            assert forall|t: Seq<u8>| #[trigger] block.has(t) <==> before.has(t) || t == term@ by {
                if before.has(t) {
                    assert(block.keys@[before.index_of(t)]@ == t);
                }
                if block.has(t) {
                    assert(before.keys@[block.index_of(t)]@ == t);
                }
                assert(before.keys@[idx as int]@ == term@);
            }
            assert forall|t: Seq<u8>| #[trigger]
                list_of(*block, t) == if t == term@ {
                    list_of(before, t).push(id)
                } else {
                    list_of(before, t)
                } by {
                if block.has(t) {
                    let k = block.index_of(t);
                    before.lemma_index(k);
                    block.lemma_index(k);
                    before.lemma_index(idx as int);
                }
            }
            assert forall|ts: Seq<Token>| block_matches(*old(block), ts) implies block_matches(
                *block,
                #[trigger] ts.push(Token { term: term@, id }),
            ) by {
                let tok = Token { term: term@, id };
                let grown = ts.push(tok);
                lemma_holds_term_push(ts, tok);
                assert forall|t: Seq<u8>| #[trigger] block.has(t) <==> holds_term(grown, t) by {
                    if before.has(t) {
                        assert(block.keys@[before.index_of(t)]@ == t);
                    }
                    if block.has(t) {
                        assert(before.keys@[block.index_of(t)]@ == t);
                    }
                    assert(before.keys@[idx as int]@ == term@);
                }
                assert forall|i: int| 0 <= i < block.keys@.len() implies (
                #[trigger] block.values@[i])@ == ids_of(grown, block.keys@[i]@) by {
                    lemma_ids_of_push(ts, tok, block.keys@[i]@);
                    if i != idx {
                        before.lemma_index(i);
                        before.lemma_index(idx as int);
                        assert(before.values@[i]@ == ids_of(ts, before.keys@[i]@));
                    } else {
                        assert(before.values@[i]@ == ids_of(ts, before.keys@[i]@));
                    }
                }
            }
        }
    } else {
        let mut list: Vec<DocId> = Vec::new();
        list.push(id);
        let key = crate::bytes::copy_range(term.as_slice(), 0, term.len());
        proof {
            assert(key@ =~= term@);
        }
        let ghost before = *block;
        block.insert(idx, key, list);
        proof {
            assert forall|t: Seq<u8>| #[trigger] block.has(t) <==> before.has(t) || t == term@ by {
                if before.has(t) {
                    let k = before.index_of(t);
                    let k2 = if k < idx { k } else { k + 1 };
                    assert(block.keys@[k2]@ == t);
                }
                if block.has(t) {
                    let k = block.index_of(t);
                    if k != idx {
                        let k0 = if k < idx { k } else { k - 1 };
                        assert(before.keys@[k0]@ == t);
                    }
                }
                assert(block.keys@[idx as int]@ == term@);
            }
            assert forall|t: Seq<u8>| #[trigger]
                list_of(*block, t) == if t == term@ {
                    list_of(before, t).push(id)
                } else {
                    list_of(before, t)
                } by {
                if block.has(t) {
                    let k = block.index_of(t);
                    block.lemma_index(k);
                    if k != idx {
                        let k0 = if k < idx { k } else { k - 1 };
                        assert(before.keys@[k0]@ == t);
                        before.lemma_index(k0);
                        assert(block.values@[k] == before.values@[k0]);
                    } else {
                        assert(list_of(before, t).push(id) =~= seq![id]);
                    }
                }
            }
            assert forall|ts: Seq<Token>| block_matches(*old(block), ts) implies block_matches(
                *block,
                #[trigger] ts.push(Token { term: term@, id }),
            ) by {
                let tok = Token { term: term@, id };
                let grown = ts.push(tok);
                lemma_holds_term_push(ts, tok);
                lemma_ids_of_absent(ts, term@);
                assert forall|t: Seq<u8>| #[trigger] block.has(t) <==> holds_term(grown, t) by {
                    if before.has(t) {
                        let k = before.index_of(t);
                        let k2 = if k < idx { k } else { k + 1 };
                        assert(block.keys@[k2]@ == t);
                    }
                    if block.has(t) {
                        let k = block.index_of(t);
                        if k != idx {
                            let k0 = if k < idx { k } else { k - 1 };
                            assert(before.keys@[k0]@ == t);
                        }
                    }
                    assert(block.keys@[idx as int]@ == term@);
                }
                assert forall|i: int| 0 <= i < block.keys@.len() implies (
                #[trigger] block.values@[i])@ == ids_of(grown, block.keys@[i]@) by {
                    lemma_ids_of_push(ts, tok, block.keys@[i]@);
                    if i != idx {
                        let k0 = if i < idx { i } else { i - 1 };
                        assert(before.values@[k0]@ == ids_of(ts, before.keys@[k0]@));
                        assert(before.has(before.keys@[k0]@));
                    } else {
                        assert(ids_of(ts, term@).push(id) =~= seq![id]);
                    }
                }
            }
        }
    }
}

/// A term occurs among occurrences with one more behind them if and only
/// if it occurs among them or is the term of the one more.
proof fn lemma_holds_term_push(ts: Seq<Token>, tok: Token)
    ensures
        forall|t: Seq<u8>| #[trigger]
            holds_term(ts.push(tok), t) <==> holds_term(ts, t) || t == tok.term,
{
    let grown = ts.push(tok);
    assert forall|t: Seq<u8>| #[trigger] holds_term(grown, t) <==> holds_term(ts, t) || t
        == tok.term by {
        if holds_term(ts, t) {
            let i = choose|i: int| 0 <= i < ts.len() && (#[trigger] ts[i]).term == t;
            assert(grown[i].term == t);
        }
        if t == tok.term {
            assert(grown[ts.len() as int].term == t);
        }
        if holds_term(grown, t) {
            let i = choose|i: int| 0 <= i < grown.len() && (#[trigger] grown[i]).term == t;
            if i < ts.len() {
                assert(ts[i].term == t);
            }
        }
    }
}

/// What records with strictly ascending terms count for a pair is what the
/// one record of the term counts.
pub proof fn lemma_pair_count_at(rs: Seq<Record>, i: int, d: DocId)
    requires
        crate::term_map::strictly_ascending(record_terms(rs)),
        0 <= i < rs.len(),
    ensures
        pair_count(rs, rs[i].term, d) == occ(rs[i].postings, d),
    decreases rs.len(),
{
    let front = rs.drop_last();
    assert(crate::term_map::strictly_ascending(record_terms(front))) by {
        assert forall|a: int, b: int|
            0 <= a < b < record_terms(front).len() implies crate::bytes::lex_lt(
            #[trigger] record_terms(front)[a],
            #[trigger] record_terms(front)[b],
        ) by {
            assert(crate::bytes::lex_lt(record_terms(rs)[a], record_terms(rs)[b]));
        }
    }
    if i < rs.len() - 1 {
        lemma_pair_count_at(front, i, d);
        assert(crate::bytes::lex_lt(record_terms(rs)[i], record_terms(rs)[rs.len() - 1]));
        lemma_lex_trichotomy(rs[i].term, rs.last().term);
    } else {
        assert forall|k: int| 0 <= k < front.len() implies (#[trigger] front[k]).term
            != rs[i].term by {
            assert(crate::bytes::lex_lt(record_terms(rs)[k], record_terms(rs)[i]));
            lemma_lex_trichotomy(rs[k].term, rs[i].term);
        }
        lemma_pair_count_absent(front, rs[i].term, d);
    }
}

/// Records without the term count nothing for it.
pub proof fn lemma_pair_count_absent(rs: Seq<Record>, t: Seq<u8>, d: DocId)
    requires
        forall|k: int| 0 <= k < rs.len() ==> (#[trigger] rs[k]).term != t,
    ensures
        pair_count(rs, t, d) == 0,
    decreases rs.len(),
{
    if rs.len() > 0 {
        assert(rs[rs.len() - 1].term != t);
        assert forall|k: int| 0 <= k < rs.drop_last().len() implies (
        #[trigger] rs.drop_last()[k]).term != t by {
            assert(rs.drop_last()[k] == rs[k]);
        }
        lemma_pair_count_absent(rs.drop_last(), t, d);
    }
}

/// The records of a block filled from the occurrences `ts` are
/// well-formed, and they hold a document once for a term where the term
/// occurs in it among `ts`, and not at all where it does not.
pub proof fn lemma_block_records(block: TermMap<Vec<DocId>>, ts: Seq<Token>)
    requires
        block_matches(block, ts),
        ascending_tokens(ts),
    ensures
        records_ordered(block_records(block)),
        records_wf(block_records(block)),
        records_fit(block_records(block)),
        forall|t: Seq<u8>, d: DocId| #[trigger]
            pair_count(block_records(block), t, d) == hit(ts, t, d),
{
    let rs = block_records(block);
    assert(record_terms(rs) =~= block.terms());
    assert forall|i: int| 0 <= i < rs.len() implies (#[trigger] rs[i]).postings.len() > 0
        && ascending(rs[i].postings) && strictly_ascending_ids(rs[i].postings) && record_fits(
        rs[i],
    ) by {
        let t = block.keys@[i]@;
        lemma_ids_of_facts(ts, t);
        lemma_dedup_facts(ids_of(ts, t));
        lemma_ascending_strict(dedup(ids_of(ts, t)));
        assert(block.has(t));
        assert(block.values@[i]@ == ids_of(ts, t));
        assert(block.keys@[i].len() == block.keys@[i]@.len());
        assert(block.values@[i].len() == block.values@[i]@.len());
    }
    assert forall|t: Seq<u8>, d: DocId| #[trigger] pair_count(rs, t, d) == hit(ts, t, d) by {
        lemma_ids_of_facts(ts, t);
        lemma_dedup_facts(ids_of(ts, t));
        if block.has(t) {
            let i = block.index_of(t);
            assert(block.values@[i]@ == ids_of(ts, t));
            lemma_pair_count_at(rs, i, d);
        } else {
            assert forall|k: int| 0 <= k < rs.len() implies (#[trigger] rs[k]).term != t by {
                assert(block.keys@[k]@ == rs[k].term);
            }
            lemma_pair_count_absent(rs, t, d);
            if holds(ts, t, d) {
                let i = choose|i: int|
                    0 <= i < ts.len() && #[trigger] ts[i] == (Token { term: t, id: d });
                assert(ts[i].term == t);
            }
        }
    }
}

impl InvertedIndex {
    /// The bytes of a block: one record for each term, in the order of the
    /// terms, with the term's posting list after the identifiers that
    /// repeat the one before them have been removed.
    pub fn write_block_to_disk(inverted_idx_block: TermMap<Vec<DocId>>) -> (block: Vec<u8>)
        requires
            inverted_idx_block.wf(),
        ensures
            block@ == encode_records(block_records(inverted_idx_block)),
    {
        let mut index_block_writer: Vec<u8> = Vec::new();
        let ghost rs = block_records(inverted_idx_block);
        let mut i: usize = 0;
        while i < inverted_idx_block.keys.len()
            invariant
                inverted_idx_block.wf(),
                i <= inverted_idx_block.keys@.len(),
                rs == block_records(inverted_idx_block),
                index_block_writer@ == encode_records(rs.take(i as int)),
            decreases inverted_idx_block.keys.len() - i,
        {
            let posting_list = dedup_adjacent(&inverted_idx_block.values[i]);
            InvertedIndex::write_inverted_index_record_to_disk(
                &mut index_block_writer,
                &inverted_idx_block.keys[i],
                &posting_list,
            );
            proof {
                lemma_encode_records_push(rs.take(i as int), rs[i as int]);
                assert(rs.take(i as int).push(rs[i as int]) =~= rs.take(i + 1));
            }
            i = i + 1;
        }
        proof {
            assert(rs.take(i as int) =~= rs);
        }
        index_block_writer
    }
}

} // verus!
