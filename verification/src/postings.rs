//! What a sequence of records says: which document stands how often in the
//! posting list of which term, and that merging adds these numbers up.

use crate::bytes::{lemma_lex_transitive, lemma_lex_trichotomy, lex_lt};
use crate::db::DocId;
use crate::merge::{merge_postings, merge_records};
use crate::record::Record;
use crate::term_map::strictly_ascending;
use vstd::prelude::*;

verus! {

/// No identifier is followed by a smaller one.
pub open spec fn ascending(s: Seq<DocId>) -> bool {
    forall|i: int, j: int|
        0 <= i < j < s.len() ==> (#[trigger] s[i]).key() <= (#[trigger] s[j]).key()
}

/// Each identifier is smaller than those behind it.
pub open spec fn strictly_ascending_ids(s: Seq<DocId>) -> bool {
    forall|i: int, j: int|
        0 <= i < j < s.len() ==> (#[trigger] s[i]).key() < (#[trigger] s[j]).key()
}

/// How often `d` stands in `s`.
pub open spec fn occ(s: Seq<DocId>, d: DocId) -> nat
    decreases s.len(),
{
    if s.len() == 0 {
        0
    } else {
        occ(s.drop_last(), d) + if s.last() == d {
            1nat
        } else {
            0nat
        }
    }
}

/// The terms of the records, in order.
pub open spec fn record_terms(rs: Seq<Record>) -> Seq<Seq<u8>> {
    Seq::new(rs.len(), |i: int| rs[i].term)
}

/// The records are well-formed: their terms ascend strictly, and each
/// posting list holds an identifier and ascends strictly, so that no
/// identifier stands twice in it.
pub open spec fn records_wf(rs: Seq<Record>) -> bool {
    &&& strictly_ascending(record_terms(rs))
    &&& forall|i: int|
        0 <= i < rs.len() ==> (#[trigger] rs[i]).postings.len() > 0 && strictly_ascending_ids(
            rs[i].postings,
        )
}

/// The records are in order: their terms ascend strictly, and each
/// posting list holds an identifier and none that is followed by a smaller
/// one. This is what merging keeps of any two sequences of records.
pub open spec fn records_ordered(rs: Seq<Record>) -> bool {
    &&& strictly_ascending(record_terms(rs))
    &&& forall|i: int|
        0 <= i < rs.len() ==> (#[trigger] rs[i]).postings.len() > 0 && ascending(rs[i].postings)
}

/// How often `d` stands in the posting lists of `t` in `rs`.
pub open spec fn pair_count(rs: Seq<Record>, t: Seq<u8>, d: DocId) -> nat
    decreases rs.len(),
{
    if rs.len() == 0 {
        0
    } else {
        pair_count(rs.drop_last(), t, d) + if rs.last().term == t {
            occ(rs.last().postings, d)
        } else {
            0nat
        }
    }
}

/// `t` comes behind `lo`, where there is a `lo`.
pub open spec fn above(lo: Option<Seq<u8>>, t: Seq<u8>) -> bool {
    lo is None || lex_lt(lo.unwrap(), t)
}

/// Every term of `rs` comes behind `lo`.
pub open spec fn all_above(lo: Option<Seq<u8>>, rs: Seq<Record>) -> bool {
    forall|i: int| 0 <= i < rs.len() ==> above(lo, (#[trigger] rs[i]).term)
}

/// How often an identifier stands in two lists, one behind the other.
pub proof fn lemma_occ_concat(a: Seq<DocId>, b: Seq<DocId>, d: DocId)
    ensures
        occ(a + b, d) == occ(a, d) + occ(b, d),
    decreases b.len(),
{
    if b.len() == 0 {
        assert(a + b =~= a);
    } else {
        lemma_occ_concat(a, b.drop_last(), d);
        assert((a + b).drop_last() =~= a + b.drop_last());
        assert((a + b).last() == b.last());
    }
}

/// An identifier that stands in `s` is counted.
pub proof fn lemma_occ_positive(s: Seq<DocId>, i: int)
    requires
        0 <= i < s.len(),
    ensures
        occ(s, s[i]) >= 1,
    decreases s.len(),
{
    if i < s.len() - 1 {
        lemma_occ_positive(s.drop_last(), i);
    }
}

/// An identifier that is counted stands in `s`.
pub proof fn lemma_occ_witness(s: Seq<DocId>, d: DocId) -> (i: int)
    requires
        occ(s, d) >= 1,
    ensures
        0 <= i < s.len(),
        s[i] == d,
    decreases s.len(),
{
    if s.last() == d {
        s.len() - 1
    } else {
        lemma_occ_witness(s.drop_last(), d)
    }
}

/// An identifier that stands at two places is counted twice.
pub proof fn lemma_occ_twice(s: Seq<DocId>, i: int, j: int)
    requires
        0 <= i < j < s.len(),
        s[i] == s[j],
    ensures
        occ(s, s[i]) >= 2,
    decreases s.len(),
{
    if j < s.len() - 1 {
        lemma_occ_twice(s.drop_last(), i, j);
    } else {
        lemma_occ_positive(s.drop_last(), i);
    }
}

/// A list in which no identifier is followed by a smaller one and none
/// stands twice ascends strictly.
pub proof fn lemma_ascending_strict(s: Seq<DocId>)
    requires
        ascending(s),
        forall|d: DocId| occ(s, d) <= 1,
    ensures
        strictly_ascending_ids(s),
{
    assert forall|i: int, j: int| 0 <= i < j < s.len() implies (#[trigger] s[i]).key() < (
    #[trigger] s[j]).key() by {
        if s[i].key() == s[j].key() {
            crate::db::lemma_key_injective(s[i], s[j]);
            lemma_occ_twice(s, i, j);
        }
    }
}

/// Merging two lists in which no identifier is followed by a smaller one
/// gives such a list, and it holds nothing below what bounds both.
pub proof fn lemma_merge_postings_ascending(a: Seq<DocId>, b: Seq<DocId>, lo: int)
    requires
        ascending(a),
        ascending(b),
        forall|i: int| 0 <= i < a.len() ==> lo <= (#[trigger] a[i]).key(),
        forall|i: int| 0 <= i < b.len() ==> lo <= (#[trigger] b[i]).key(),
    ensures
        ascending(merge_postings(a, b)),
        forall|i: int|
            0 <= i < merge_postings(a, b).len() ==> lo <= (
            #[trigger] merge_postings(a, b)[i]).key(),
    decreases a.len() + b.len(),
{
    if a.len() > 0 && b.len() > 0 {
        let m = merge_postings(a, b);
        if a[0].key() < b[0].key() {
            let rest = merge_postings(a.skip(1), b);
            assert forall|i: int| 0 <= i < a.skip(1).len() implies a[0].key() <= (
            #[trigger] a.skip(1)[i]).key() by {
                assert(a.skip(1)[i] == a[i + 1]);
            }
            assert(ascending(a.skip(1))) by {
                assert forall|i: int, j: int| 0 <= i < j < a.skip(1).len() implies (
                #[trigger] a.skip(1)[i]).key() <= (#[trigger] a.skip(1)[j]).key() by {
                    assert(a.skip(1)[i] == a[i + 1] && a.skip(1)[j] == a[j + 1]);
                }
            }
            assert forall|i: int| 0 <= i < b.len() implies a[0].key() <= (
            #[trigger] b[i]).key() by {
                if i > 0 {
                    assert(b[0].key() <= b[i].key());
                }
            }
            lemma_merge_postings_ascending(a.skip(1), b, a[0].key());
            assert forall|i: int, j: int| 0 <= i < j < m.len() implies (#[trigger] m[i]).key() <= (
            #[trigger] m[j]).key() by {
                assert(m[j] == rest[j - 1]);
                if i > 0 {
                    assert(m[i] == rest[i - 1]);
                }
            }
            assert forall|i: int| 0 <= i < m.len() implies lo <= (#[trigger] m[i]).key() by {
                if i > 0 {
                    assert(m[i] == rest[i - 1]);
                }
            }
        } else {
            let rest = merge_postings(a, b.skip(1));
            assert forall|i: int| 0 <= i < b.skip(1).len() implies b[0].key() <= (
            #[trigger] b.skip(1)[i]).key() by {
                assert(b.skip(1)[i] == b[i + 1]);
            }
            assert(ascending(b.skip(1))) by {
                assert forall|i: int, j: int| 0 <= i < j < b.skip(1).len() implies (
                #[trigger] b.skip(1)[i]).key() <= (#[trigger] b.skip(1)[j]).key() by {
                    assert(b.skip(1)[i] == b[i + 1] && b.skip(1)[j] == b[j + 1]);
                }
            }
            assert forall|i: int| 0 <= i < a.len() implies b[0].key() <= (
            #[trigger] a[i]).key() by {
                if i > 0 {
                    assert(a[0].key() <= a[i].key());
                }
            }
            lemma_merge_postings_ascending(a, b.skip(1), b[0].key());
            assert forall|i: int, j: int| 0 <= i < j < m.len() implies (#[trigger] m[i]).key() <= (
            #[trigger] m[j]).key() by {
                assert(m[j] == rest[j - 1]);
                if i > 0 {
                    assert(m[i] == rest[i - 1]);
                }
            }
            assert forall|i: int| 0 <= i < m.len() implies lo <= (#[trigger] m[i]).key() by {
                if i > 0 {
                    assert(m[i] == rest[i - 1]);
                }
            }
        }
    }
}

/// The merged list holds each identifier as often as the two lists
/// together.
pub proof fn lemma_merge_postings_occ(a: Seq<DocId>, b: Seq<DocId>, d: DocId)
    ensures
        occ(merge_postings(a, b), d) == occ(a, d) + occ(b, d),
    decreases a.len() + b.len(),
{
    if a.len() == 0 {
        assert(a =~= Seq::<DocId>::empty());
    } else if b.len() == 0 {
        assert(b =~= Seq::<DocId>::empty());
    } else if a[0].key() < b[0].key() {
        lemma_merge_postings_occ(a.skip(1), b, d);
        lemma_occ_concat(seq![a[0]], merge_postings(a.skip(1), b), d);
        lemma_occ_concat(seq![a[0]], a.skip(1), d);
        assert(seq![a[0]] + a.skip(1) =~= a);
    } else {
        lemma_merge_postings_occ(a, b.skip(1), d);
        lemma_occ_concat(seq![b[0]], merge_postings(a, b.skip(1)), d);
        lemma_occ_concat(seq![b[0]], b.skip(1), d);
        assert(seq![b[0]] + b.skip(1) =~= b);
    }
}

/// What two sequences of records, one behind the other, count for a pair.
pub proof fn lemma_pair_count_concat(a: Seq<Record>, b: Seq<Record>, t: Seq<u8>, d: DocId)
    ensures
        pair_count(a + b, t, d) == pair_count(a, t, d) + pair_count(b, t, d),
    decreases b.len(),
{
    if b.len() == 0 {
        assert(a + b =~= a);
    } else {
        lemma_pair_count_concat(a, b.drop_last(), t, d);
        assert((a + b).drop_last() =~= a + b.drop_last());
        assert((a + b).last() == b.last());
    }
}

/// What one record counts for a pair.
pub proof fn lemma_pair_count_one(x: Record, t: Seq<u8>, d: DocId)
    ensures
        pair_count(seq![x], t, d) == if x.term == t {
            occ(x.postings, d)
        } else {
            0nat
        },
{
    assert(seq![x].drop_last() =~= Seq::<Record>::empty());
    assert(pair_count(seq![x].drop_last(), t, d) == 0);
}

/// What a sequence of records counts is what its first record counts and
/// what the records behind it count.
pub proof fn lemma_pair_count_front(rs: Seq<Record>, t: Seq<u8>, d: DocId)
    requires
        rs.len() > 0,
    ensures
        pair_count(rs, t, d) == pair_count(rs.skip(1), t, d) + if rs[0].term == t {
            occ(rs[0].postings, d)
        } else {
            0nat
        },
{
    assert(rs =~= seq![rs[0]] + rs.skip(1));
    lemma_pair_count_concat(seq![rs[0]], rs.skip(1), t, d);
    lemma_pair_count_one(rs[0], t, d);
}

/// The merged records count each pair as often as the two sequences
/// together.
pub proof fn lemma_merge_records_count(l: Seq<Record>, r: Seq<Record>, t: Seq<u8>, d: DocId)
    ensures
        pair_count(merge_records(l, r), t, d) == pair_count(l, t, d) + pair_count(r, t, d),
    decreases l.len() + r.len(),
{
    if l.len() == 0 {
        assert(l =~= Seq::<Record>::empty());
    } else if r.len() == 0 {
        assert(r =~= Seq::<Record>::empty());
    } else if lex_lt(l[0].term, r[0].term) {
        lemma_merge_records_count(l.skip(1), r, t, d);
        lemma_pair_count_concat(seq![l[0]], merge_records(l.skip(1), r), t, d);
        lemma_pair_count_one(l[0], t, d);
        lemma_pair_count_front(l, t, d);
    } else if lex_lt(r[0].term, l[0].term) {
        lemma_merge_records_count(l, r.skip(1), t, d);
        lemma_pair_count_concat(seq![r[0]], merge_records(l, r.skip(1)), t, d);
        lemma_pair_count_one(r[0], t, d);
        lemma_pair_count_front(r, t, d);
    } else {
        let both = Record {
            term: l[0].term,
            postings: merge_postings(l[0].postings, r[0].postings),
        };
        lemma_lex_trichotomy(l[0].term, r[0].term);
        lemma_merge_records_count(l.skip(1), r.skip(1), t, d);
        lemma_pair_count_concat(seq![both], merge_records(l.skip(1), r.skip(1)), t, d);
        lemma_pair_count_one(both, t, d);
        lemma_merge_postings_occ(l[0].postings, r[0].postings, d);
        lemma_pair_count_front(l, t, d);
        lemma_pair_count_front(r, t, d);
    }
}

/// What is left of well-formed records without the first is well-formed,
/// and its terms come behind the term of the first.
proof fn lemma_skip_wf(rs: Seq<Record>)
    requires
        records_ordered(rs),
        rs.len() > 0,
    ensures
        records_ordered(rs.skip(1)),
        all_above(Some(rs[0].term), rs.skip(1)),
{
    let s = rs.skip(1);
    assert forall|i: int, j: int| 0 <= i < j < record_terms(s).len() implies lex_lt(
        #[trigger] record_terms(s)[i],
        #[trigger] record_terms(s)[j],
    ) by {
        assert(lex_lt(record_terms(rs)[i + 1], record_terms(rs)[j + 1]));
    }
    assert forall|i: int| 0 <= i < s.len() implies (#[trigger] s[i]).postings.len() > 0
        && ascending(s[i].postings) by {
        assert(s[i] == rs[i + 1]);
    }
    assert forall|i: int| 0 <= i < s.len() implies above(
        Some(rs[0].term),
        (#[trigger] s[i]).term,
    ) by {
        assert(lex_lt(record_terms(rs)[0], record_terms(rs)[i + 1]));
    }
}

/// The terms of well-formed records come behind what comes before the
/// first of them.
proof fn lemma_all_above_weaken(lo: Seq<u8>, hi: Seq<u8>, rs: Seq<Record>)
    requires
        lex_lt(lo, hi),
        records_ordered(rs),
        rs.len() > 0,
        rs[0].term == hi,
    ensures
        all_above(Some(lo), rs),
{
    assert forall|i: int| 0 <= i < rs.len() implies above(Some(lo), (#[trigger] rs[i]).term) by {
        if i > 0 {
            assert(lex_lt(record_terms(rs)[0], record_terms(rs)[i]));
            lemma_lex_transitive(lo, hi, rs[i].term);
        }
    }
}

/// A record in front of well-formed records whose terms come behind its
/// term makes well-formed records.
proof fn lemma_cons_wf(x: Record, rest: Seq<Record>)
    requires
        records_ordered(rest),
        all_above(Some(x.term), rest),
        x.postings.len() > 0,
        ascending(x.postings),
    ensures
        records_ordered(seq![x] + rest),
{
    let m = seq![x] + rest;
    assert forall|i: int, j: int| 0 <= i < j < record_terms(m).len() implies lex_lt(
        #[trigger] record_terms(m)[i],
        #[trigger] record_terms(m)[j],
    ) by {
        assert(m[j] == rest[j - 1]);
        if i > 0 {
            assert(m[i] == rest[i - 1]);
            assert(lex_lt(record_terms(rest)[i - 1], record_terms(rest)[j - 1]));
        } else {
            assert(above(Some(x.term), rest[j - 1].term));
        }
    }
    assert forall|i: int| 0 <= i < m.len() implies (#[trigger] m[i]).postings.len() > 0
        && ascending(m[i].postings) by {
        if i > 0 {
            assert(m[i] == rest[i - 1]);
        }
    }
}

/// A record in front of records keeps what their terms come behind, where
/// its own term comes behind it.
proof fn lemma_cons_above(lo: Option<Seq<u8>>, x: Record, rest: Seq<Record>)
    requires
        above(lo, x.term),
        all_above(lo, rest),
    ensures
        all_above(lo, seq![x] + rest),
{
    let m = seq![x] + rest;
    assert forall|i: int| 0 <= i < m.len() implies above(lo, (#[trigger] m[i]).term) by {
        if i > 0 {
            assert(m[i] == rest[i - 1]);
        }
    }
}

/// Merging two well-formed sequences of records gives a well-formed
/// sequence, and its terms come behind what the terms of both come behind.
pub proof fn lemma_merge_records_wf(l: Seq<Record>, r: Seq<Record>, lo: Option<Seq<u8>>)
    requires
        records_ordered(l),
        records_ordered(r),
        all_above(lo, l),
        all_above(lo, r),
    ensures
        records_ordered(merge_records(l, r)),
        all_above(lo, merge_records(l, r)),
    decreases l.len() + r.len(),
{
    if l.len() > 0 && r.len() > 0 {
        lemma_lex_trichotomy(l[0].term, r[0].term);
        if lex_lt(l[0].term, r[0].term) {
            lemma_skip_wf(l);
            lemma_all_above_weaken(l[0].term, r[0].term, r);
            lemma_merge_records_wf(l.skip(1), r, Some(l[0].term));
            lemma_cons_wf(l[0], merge_records(l.skip(1), r));
            assert(all_above(lo, l.skip(1))) by {
                assert forall|i: int| 0 <= i < l.skip(1).len() implies above(
                    lo,
                    (#[trigger] l.skip(1)[i]).term,
                ) by {
                    assert(l.skip(1)[i] == l[i + 1]);
                }
            }
            lemma_merge_records_wf(l.skip(1), r, lo);
            lemma_cons_above(lo, l[0], merge_records(l.skip(1), r));
        } else if lex_lt(r[0].term, l[0].term) {
            lemma_skip_wf(r);
            lemma_all_above_weaken(r[0].term, l[0].term, l);
            lemma_merge_records_wf(l, r.skip(1), Some(r[0].term));
            lemma_cons_wf(r[0], merge_records(l, r.skip(1)));
            assert(all_above(lo, r.skip(1))) by {
                assert forall|i: int| 0 <= i < r.skip(1).len() implies above(
                    lo,
                    (#[trigger] r.skip(1)[i]).term,
                ) by {
                    assert(r.skip(1)[i] == r[i + 1]);
                }
            }
            lemma_merge_records_wf(l, r.skip(1), lo);
            lemma_cons_above(lo, r[0], merge_records(l, r.skip(1)));
        } else {
            let both = Record {
                term: l[0].term,
                postings: merge_postings(l[0].postings, r[0].postings),
            };
            lemma_skip_wf(l);
            lemma_skip_wf(r);
            lemma_merge_records_wf(l.skip(1), r.skip(1), Some(l[0].term));
            crate::merge::lemma_merge_postings_len(l[0].postings, r[0].postings);
            lemma_merge_postings_ascending(l[0].postings, r[0].postings, 0);
            lemma_cons_wf(both, merge_records(l.skip(1), r.skip(1)));
            assert(all_above(lo, l.skip(1))) by {
                assert forall|i: int| 0 <= i < l.skip(1).len() implies above(
                    lo,
                    (#[trigger] l.skip(1)[i]).term,
                ) by {
                    assert(l.skip(1)[i] == l[i + 1]);
                }
            }
            assert(all_above(lo, r.skip(1))) by {
                assert forall|i: int| 0 <= i < r.skip(1).len() implies above(
                    lo,
                    (#[trigger] r.skip(1)[i]).term,
                ) by {
                    assert(r.skip(1)[i] == r[i + 1]);
                }
            }
            lemma_merge_records_wf(l.skip(1), r.skip(1), lo);
            lemma_cons_above(lo, both, merge_records(l.skip(1), r.skip(1)));
        }
    }
}

/// The blocks of a queue merged two by two from the front, each merged
/// block joining the queue at its back, until one is left.
pub open spec fn fifo_merge(q: Seq<Seq<Record>>) -> Seq<Record>
    decreases q.len(),
{
    if q.len() == 0 {
        Seq::empty()
    } else if q.len() == 1 {
        q[0]
    } else {
        fifo_merge(q.skip(2).push(merge_records(q[0], q[1])))
    }
}

/// How often `d` stands in the posting lists of `t` in all the blocks of
/// the queue.
pub open spec fn queue_count(q: Seq<Seq<Record>>, t: Seq<u8>, d: DocId) -> nat
    decreases q.len(),
{
    if q.len() == 0 {
        0
    } else {
        queue_count(q.drop_last(), t, d) + pair_count(q.last(), t, d)
    }
}

/// Every block of the queue is well-formed.
pub open spec fn queue_wf(q: Seq<Seq<Record>>) -> bool {
    forall|i: int| 0 <= i < q.len() ==> records_ordered(#[trigger] q[i])
}

/// What a queue counts for a pair is what its first block counts and what
/// the blocks behind it count.
pub proof fn lemma_queue_count_front(q: Seq<Seq<Record>>, t: Seq<u8>, d: DocId)
    requires
        q.len() > 0,
    ensures
        queue_count(q, t, d) == pair_count(q[0], t, d) + queue_count(q.skip(1), t, d),
    decreases q.len(),
{
    if q.len() == 1 {
        assert(q.drop_last() =~= Seq::<Seq<Record>>::empty());
        assert(q.skip(1) =~= Seq::<Seq<Record>>::empty());
    } else {
        lemma_queue_count_front(q.drop_last(), t, d);
        assert(q.drop_last().skip(1) =~= q.skip(1).drop_last());
        assert(q.skip(1).last() == q.last());
    }
}

/// The block that is left when a queue of well-formed blocks has been
/// merged is well-formed and counts each pair as often as the blocks of
/// the queue together.
pub proof fn lemma_fifo_merge(q: Seq<Seq<Record>>, t: Seq<u8>, d: DocId)
    requires
        queue_wf(q),
    ensures
        records_ordered(fifo_merge(q)),
        pair_count(fifo_merge(q), t, d) == queue_count(q, t, d),
    decreases q.len(),
{
    if q.len() == 0 {
    } else if q.len() == 1 {
        assert(q.drop_last() =~= Seq::<Seq<Record>>::empty());
        assert(queue_count(q.drop_last(), t, d) == 0);
        assert(q.last() == q[0]);
    } else {
        let m = merge_records(q[0], q[1]);
        let next = q.skip(2).push(m);
        lemma_merge_records_wf(q[0], q[1], None);
        lemma_merge_records_count(q[0], q[1], t, d);
        assert forall|i: int| 0 <= i < next.len() implies records_ordered(#[trigger] next[i]) by {
            if i < next.len() - 1 {
                assert(next[i] == q[i + 2]);
            }
        }
        lemma_fifo_merge(next, t, d);
        assert(next.drop_last() =~= q.skip(2));
        assert(next.last() == m);
        assert(queue_count(next, t, d) == queue_count(q.skip(2), t, d) + pair_count(m, t, d));
        lemma_queue_count_front(q, t, d);
        lemma_queue_count_front(q.skip(1), t, d);
        assert(q.skip(1).skip(1) =~= q.skip(2));
        assert(q.skip(1)[0] == q[1]);
        assert(queue_count(q, t, d) == pair_count(q[0], t, d) + pair_count(q[1], t, d)
            + queue_count(q.skip(2), t, d));
    }
}

} // verus!
