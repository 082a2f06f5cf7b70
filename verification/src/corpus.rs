//! The words of a collection of documents as one stream, and how that
//! stream is cut into blocks.

use crate::db::{word_bytes, Doc, DocId};
use crate::postings::{ascending, occ};
use vstd::prelude::*;

verus! {

/// One occurrence of a term in a document.
pub struct Token {
    pub term: Seq<u8>,
    pub id: DocId,
}

/// The occurrences of terms in a document, in the order of its words.
pub open spec fn doc_tokens(d: Doc) -> Seq<Token> {
    Seq::new(d.words@.len(), |j: int| Token { term: word_bytes(d.words@[j]), id: d._id })
}

/// The occurrences of terms in the documents, document after document.
pub open spec fn tokens(docs: Seq<Doc>) -> Seq<Token>
    decreases docs.len(),
{
    if docs.len() == 0 {
        Seq::empty()
    } else {
        tokens(docs.drop_last()) + doc_tokens(docs.last())
    }
}

/// Each document has a larger identifier than the documents before it.
pub open spec fn ascending_docs(docs: Seq<Doc>) -> bool {
    forall|i: int, j: int|
        0 <= i < j < docs.len() ==> (#[trigger] docs[i])._id.key() < (#[trigger] docs[j])._id.key()
}

/// Whether each document has a larger identifier than the documents
/// before it.
pub fn docs_ascend(docs: &Vec<Doc>) -> (ok: bool)
    ensures
        ok == ascending_docs(docs@),
{
    let mut i: usize = 1;
    while i < docs.len()
        invariant
            1 <= i,
            forall|a: int, b: int|
                0 <= a < b < i && b < docs@.len() ==> (#[trigger] docs@[a])._id.key() < (
                #[trigger] docs@[b])._id.key(),
        decreases docs.len() - i,
    {
        if !docs[i - 1]._id.precedes(&docs[i]._id) {
            return false;
        }
        proof {
            assert forall|a: int, b: int| 0 <= a < b < i + 1 && b < docs@.len() implies (
            #[trigger] docs@[a])._id.key() < (#[trigger] docs@[b])._id.key() by {
                if b == i && a < i - 1 {
                    assert(docs@[a]._id.key() < docs@[i - 1]._id.key());
                }
            }
        }
        i = i + 1;
    }
    true
}

/// No occurrence is followed by one in a document with a smaller
/// identifier.
pub open spec fn ascending_tokens(ts: Seq<Token>) -> bool {
    forall|i: int, j: int|
        0 <= i < j < ts.len() ==> (#[trigger] ts[i]).id.key() <= (#[trigger] ts[j]).id.key()
}

/// The term occurs among `ts`.
pub open spec fn holds_term(ts: Seq<Token>, t: Seq<u8>) -> bool {
    exists|i: int| 0 <= i < ts.len() && (#[trigger] ts[i]).term == t
}

/// The term occurs in the document among `ts`.
pub open spec fn holds(ts: Seq<Token>, t: Seq<u8>, d: DocId) -> bool {
    exists|i: int| 0 <= i < ts.len() && #[trigger] ts[i] == (Token { term: t, id: d })
}

/// One if the term occurs in the document among `ts`, else zero.
pub open spec fn hit(ts: Seq<Token>, t: Seq<u8>, d: DocId) -> nat {
    if holds(ts, t, d) {
        1
    } else {
        0
    }
}

/// The documents of the occurrences of `t` among `ts`, in order and with
/// repetitions.
pub open spec fn ids_of(ts: Seq<Token>, t: Seq<u8>) -> Seq<DocId>
    decreases ts.len(),
{
    if ts.len() == 0 {
        Seq::empty()
    } else if ts.last().term == t {
        ids_of(ts.drop_last(), t).push(ts.last().id)
    } else {
        ids_of(ts.drop_last(), t)
    }
}

/// `s` without the identifiers that repeat the one before them.
pub open spec fn dedup(s: Seq<DocId>) -> Seq<DocId>
    decreases s.len(),
{
    if s.len() == 0 {
        Seq::empty()
    } else if s.len() >= 2 && s[s.len() - 2] == s.last() {
        dedup(s.drop_last())
    } else {
        dedup(s.drop_last()).push(s.last())
    }
}

/// The blocks that are full and the block that is being filled after the
/// documents `docs`. A block takes whole documents: it is full once it
/// holds an occurrence and no fewer than `m` of them.
pub open spec fn chunk_state(docs: Seq<Doc>, m: int) -> (Seq<Seq<Token>>, Seq<Token>)
    decreases docs.len(),
{
    if docs.len() == 0 {
        (Seq::empty(), Seq::empty())
    } else {
        let (full, cur) = chunk_state(docs.drop_last(), m);
        let grown = cur + doc_tokens(docs.last());
        if grown.len() > 0 && grown.len() >= m {
            (full.push(grown), Seq::empty())
        } else {
            (full, grown)
        }
    }
}

/// The blocks into which the occurrences of the documents are cut: whole
/// documents with no fewer than `m` occurrences together, and what is left
/// over in a last block.
pub open spec fn chunks(docs: Seq<Doc>, m: int) -> Seq<Seq<Token>> {
    let (full, cur) = chunk_state(docs, m);
    if cur.len() > 0 {
        full.push(cur)
    } else {
        full
    }
}

/// In how many of the blocks `cs` the term occurs in the document.
pub open spec fn sum_hits(cs: Seq<Seq<Token>>, t: Seq<u8>, d: DocId) -> nat
    decreases cs.len(),
{
    if cs.len() == 0 {
        0
    } else {
        sum_hits(cs.drop_last(), t, d) + hit(cs.last(), t, d)
    }
}

/// A term occurs in a document among two sequences of occurrences, one
/// behind the other, if and only if it does so among one of them.
pub proof fn lemma_holds_concat(a: Seq<Token>, b: Seq<Token>, t: Seq<u8>, d: DocId)
    ensures
        holds(a + b, t, d) <==> holds(a, t, d) || holds(b, t, d),
{
    let want = Token { term: t, id: d };
    let all = a + b;
    if holds(a, t, d) {
        let i = choose|i: int| 0 <= i < a.len() && #[trigger] a[i] == want;
        assert(all[i] == want);
    }
    if holds(b, t, d) {
        let i = choose|i: int| 0 <= i < b.len() && #[trigger] b[i] == want;
        assert(all[a.len() + i] == want);
    }
    if holds(all, t, d) {
        let i = choose|i: int| 0 <= i < all.len() && #[trigger] all[i] == want;
        if i < a.len() {
            assert(a[i] == want);
        } else {
            assert(b[i - a.len()] == want);
        }
    }
}

/// Each occurrence among the occurrences of the documents is that of a
/// word of one of the documents.
pub proof fn lemma_token_source(docs: Seq<Doc>, i: int) -> (r: (int, int))
    requires
        0 <= i < tokens(docs).len(),
    ensures
        0 <= r.0 < docs.len(),
        0 <= r.1 < docs[r.0].words@.len(),
        tokens(docs)[i] == doc_tokens(docs[r.0])[r.1],
    decreases docs.len(),
{
    let front = tokens(docs.drop_last());
    if i < front.len() {
        let r = lemma_token_source(docs.drop_last(), i);
        assert(docs.drop_last()[r.0] == docs[r.0]);
        r
    } else {
        (docs.len() - 1, i - front.len())
    }
}

/// The occurrences of documents that come in the order of their
/// identifiers are in no document with a larger identifier than the last.
pub proof fn lemma_tokens_below(docs: Seq<Doc>, t: Seq<u8>, d: DocId)
    requires
        ascending_docs(docs),
        holds(tokens(docs), t, d),
    ensures
        docs.len() > 0,
        d.key() <= docs.last()._id.key(),
{
    let ts = tokens(docs);
    let i = choose|i: int| 0 <= i < ts.len() && #[trigger] ts[i] == (Token { term: t, id: d });
    let r = lemma_token_source(docs, i);
    if r.0 < docs.len() - 1 {
        assert(docs[r.0]._id.key() < docs[docs.len() - 1]._id.key());
    }
}

/// Documents without the last of them come in the order of their
/// identifiers where all of them do.
pub proof fn lemma_ascending_front(docs: Seq<Doc>)
    requires
        ascending_docs(docs),
        docs.len() > 0,
    ensures
        ascending_docs(docs.drop_last()),
{
    let front = docs.drop_last();
    assert forall|i: int, j: int| 0 <= i < j < front.len() implies (
    #[trigger] front[i])._id.key() < (#[trigger] front[j])._id.key() by {
        assert(front[i] == docs[i] && front[j] == docs[j]);
    }
}

/// Of documents that come in the order of their identifiers, a term
/// occurs in a document in exactly one block where it occurs in it, and in
/// none where it does not: the blocks are cut between documents.
pub proof fn lemma_chunks_exact(docs: Seq<Doc>, m: int, t: Seq<u8>, d: DocId)
    requires
        ascending_docs(docs),
    ensures
        sum_hits(chunk_state(docs, m).0, t, d) + hit(chunk_state(docs, m).1, t, d) == hit(
            tokens(docs),
            t,
            d,
        ),
        sum_hits(chunks(docs, m), t, d) == hit(tokens(docs), t, d),
    decreases docs.len(),
{
    let full = chunk_state(docs, m).0;
    let cur = chunk_state(docs, m).1;
    if docs.len() == 0 {
        assert(!holds(tokens(docs), t, d));
        assert(!holds(cur, t, d));
    } else {
        let front = docs.drop_last();
        let these = doc_tokens(docs.last());
        lemma_ascending_front(docs);
        lemma_chunks_exact(front, m, t, d);
        let full0 = chunk_state(front, m).0;
        let cur0 = chunk_state(front, m).1;
        let grown = cur0 + these;
        lemma_holds_concat(cur0, these, t, d);
        lemma_holds_concat(tokens(front), these, t, d);
        if holds(these, t, d) {
            let j = choose|j: int|
                0 <= j < these.len() && #[trigger] these[j] == (Token { term: t, id: d });
            assert(d == docs.last()._id);
            if holds(tokens(front), t, d) {
                lemma_tokens_below(front, t, d);
                assert(front.last() == docs[docs.len() - 2]);
                assert(docs[docs.len() - 2]._id.key() < docs[docs.len() - 1]._id.key());
            }
        }
        if grown.len() > 0 && grown.len() >= m {
            assert(full == full0.push(grown));
            assert(full.drop_last() =~= full0);
            assert(!holds(cur, t, d));
        }
    }
    if cur.len() > 0 {
        assert(full.push(cur).drop_last() =~= full);
    } else {
        assert(!holds(cur, t, d));
    }
}

/// The documents of a term among occurrences with one more behind them.
pub proof fn lemma_ids_of_push(ts: Seq<Token>, tok: Token, t: Seq<u8>)
    ensures
        ids_of(ts.push(tok), t) == if tok.term == t {
            ids_of(ts, t).push(tok.id)
        } else {
            ids_of(ts, t)
        },
{
    assert(ts.push(tok).drop_last() =~= ts);
}

/// A term that does not occur has no documents.
pub proof fn lemma_ids_of_absent(ts: Seq<Token>, t: Seq<u8>)
    requires
        !holds_term(ts, t),
    ensures
        ids_of(ts, t) == Seq::<DocId>::empty(),
    decreases ts.len(),
{
    if ts.len() > 0 {
        assert(ts[ts.len() - 1].term != t);
        assert forall|i: int| 0 <= i < ts.drop_last().len() implies (
        #[trigger] ts.drop_last()[i]).term != t by {
            assert(ts[i].term != t);
        }
        lemma_ids_of_absent(ts.drop_last(), t);
    }
}

/// The documents of a term are documents of occurrences, in their order.
pub proof fn lemma_ids_of_facts(ts: Seq<Token>, t: Seq<u8>)
    requires
        ascending_tokens(ts),
    ensures
        ascending(ids_of(ts, t)),
        holds_term(ts, t) ==> ids_of(ts, t).len() > 0,
        ts.len() > 0 ==> forall|i: int|
            0 <= i < ids_of(ts, t).len() ==> (#[trigger] ids_of(ts, t)[i]).key()
                <= ts.last().id.key(),
        forall|d: DocId| occ(ids_of(ts, t), d) >= 1 <==> holds(ts, t, d),
    decreases ts.len(),
{
    if ts.len() == 0 {
    } else {
        let front = ts.drop_last();
        let last = ts.last();
        assert(ascending_tokens(front)) by {
            assert forall|i: int, j: int| 0 <= i < j < front.len() implies (
            #[trigger] front[i]).id.key() <= (#[trigger] front[j]).id.key() by {
                assert(front[i] == ts[i] && front[j] == ts[j]);
            }
        }
        lemma_ids_of_facts(front, t);
        let a = ids_of(front, t);
        let b = ids_of(ts, t);
        if front.len() > 0 {
            assert(front.last() == ts[ts.len() - 2]);
            assert(ts[ts.len() - 2].id.key() <= ts[ts.len() - 1].id.key());
        }
        assert(ascending(b)) by {
            assert forall|i: int, j: int| 0 <= i < j < b.len() implies (#[trigger] b[i]).key() <= (
            #[trigger] b[j]).key() by {
                if j < a.len() {
                    assert(b[i] == a[i] && b[j] == a[j]);
                } else {
                    assert(b[i] == a[i]);
                }
            }
        }
        assert forall|i: int| 0 <= i < b.len() implies (#[trigger] b[i]).key()
            <= ts.last().id.key() by {
            if i < a.len() {
                assert(b[i] == a[i]);
            }
        }
        if holds_term(ts, t) {
            if last.term != t {
                let i = choose|i: int| 0 <= i < ts.len() && (#[trigger] ts[i]).term == t;
                assert(front[i].term == t);
            }
        }
        assert forall|d: DocId| occ(b, d) >= 1 <==> holds(ts, t, d) by {
            if last.term == t {
                assert(b.drop_last() =~= a);
            }
            if holds(front, t, d) {
                let i = choose|i: int|
                    0 <= i < front.len() && #[trigger] front[i] == (Token { term: t, id: d });
                assert(ts[i] == (Token { term: t, id: d }));
            }
            if holds(ts, t, d) {
                let i = choose|i: int|
                    0 <= i < ts.len() && #[trigger] ts[i] == (Token { term: t, id: d });
                if i < front.len() {
                    assert(front[i] == (Token { term: t, id: d }));
                }
            }
            if last.term == t && last.id == d {
                assert(ts[ts.len() - 1] == (Token { term: t, id: d }));
            }
        }
    }
}

/// What is left of a list without an identifier below its last holds that
/// last identifier once, where its neighbours are removed.
pub proof fn lemma_dedup_facts(s: Seq<DocId>)
    requires
        ascending(s),
    ensures
        ascending(dedup(s)),
        s.len() > 0 ==> dedup(s).len() > 0 && dedup(s).last() == s.last(),
        dedup(s).len() <= s.len(),
        forall|d: DocId| occ(dedup(s), d) == if occ(s, d) >= 1 {
            1nat
        } else {
            0nat
        },
    decreases s.len(),
{
    if s.len() == 0 {
    } else {
        let front = s.drop_last();
        assert(ascending(front)) by {
            assert forall|i: int, j: int| 0 <= i < j < front.len() implies (
            #[trigger] front[i]).key() <= (#[trigger] front[j]).key() by {
                assert(front[i] == s[i] && front[j] == s[j]);
            }
        }
        lemma_dedup_facts(front);
        let df = dedup(front);
        let ds = dedup(s);
        if s.len() >= 2 && s[s.len() - 2] == s.last() {
            assert(front.last() == s.last());
            assert forall|d: DocId| occ(ds, d) == if occ(s, d) >= 1 {
                1nat
            } else {
                0nat
            } by {
                assert(occ(df, d) == if occ(front, d) >= 1 {
                    1nat
                } else {
                    0nat
                });
                if d == s.last() {
                    crate::postings::lemma_occ_positive(front, front.len() - 1);
                }
            }
        } else {
            assert(ds.drop_last() =~= df);
            if front.len() > 0 {
                assert(front.last() == s[s.len() - 2]);
                assert(s[s.len() - 2].key() <= s[s.len() - 1].key());
                assert(s[s.len() - 2].key() != s[s.len() - 1].key());
            }
            assert(occ(front, s.last()) == 0) by {
                if occ(front, s.last()) >= 1 {
                    let i = crate::postings::lemma_occ_witness(front, s.last());
                    assert(front[i] == s[i]);
                    assert(s[i].key() <= s[s.len() - 2].key());
                }
            }
            assert forall|d: DocId| occ(ds, d) == if occ(s, d) >= 1 {
                1nat
            } else {
                0nat
            } by {
                assert(occ(df, d) == if occ(front, d) >= 1 {
                    1nat
                } else {
                    0nat
                });
                assert(ds.last() == s.last());
            }
            assert(ascending(ds)) by {
                assert forall|i: int, j: int| 0 <= i < j < ds.len() implies (#[trigger] ds[i]).key()
                    <= (#[trigger] ds[j]).key() by {
                    if j < df.len() {
                        assert(ds[i] == df[i] && ds[j] == df[j]);
                    } else {
                        assert(ds[i] == df[i]);
                        crate::postings::lemma_occ_positive(df, i);
                        let k = crate::postings::lemma_occ_witness(front, df[i]);
                        assert(front[k] == s[k]);
                        assert(s[k].key() <= s[s.len() - 1].key());
                    }
                }
            }
        }
    }
}

} // verus!
