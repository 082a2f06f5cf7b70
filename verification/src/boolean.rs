//! Boolean retrieval: the documents that two posting lists share.

use crate::db::DocId;
use crate::postings::strictly_ascending_ids;
use vstd::prelude::*;

verus! {

/// What two lists share, found by walking both from the front: where the
/// first identifiers are equal, that identifier is shared and both lists
/// move on; otherwise the list with the smaller first identifier moves on.
pub open spec fn intersect_spec(a: Seq<DocId>, b: Seq<DocId>) -> Seq<DocId>
    decreases a.len() + b.len(),
{
    if a.len() == 0 || b.len() == 0 {
        Seq::empty()
    } else if a[0] == b[0] {
        seq![a[0]] + intersect_spec(a.skip(1), b.skip(1))
    } else if a[0].key() < b[0].key() {
        intersect_spec(a.skip(1), b)
    } else {
        intersect_spec(a, b.skip(1))
    }
}

/// What is left of a strictly ascending list without its first identifier
/// ascends strictly, holds the rest of the identifiers, and holds only
/// larger ones than the first.
proof fn lemma_skip_ascending(a: Seq<DocId>)
    requires
        strictly_ascending_ids(a),
        a.len() > 0,
    ensures
        strictly_ascending_ids(a.skip(1)),
        forall|d: DocId| a.contains(d) <==> d == a[0] || a.skip(1).contains(d),
        forall|d: DocId| a.skip(1).contains(d) ==> a[0].key() < d.key(),
{
    let s = a.skip(1);
    assert forall|i: int, j: int| 0 <= i < j < s.len() implies (#[trigger] s[i]).key() < (
    #[trigger] s[j]).key() by {
        assert(s[i] == a[i + 1] && s[j] == a[j + 1]);
    }
    assert forall|d: DocId| a.contains(d) <==> d == a[0] || s.contains(d) by {
        if a.contains(d) {
            let i = choose|i: int| 0 <= i < a.len() && a[i] == d;
            if i > 0 {
                assert(s[i - 1] == d);
            }
        }
        if s.contains(d) {
            let i = choose|i: int| 0 <= i < s.len() && s[i] == d;
            assert(a[i + 1] == d);
        }
    }
    assert forall|d: DocId| s.contains(d) implies a[0].key() < d.key() by {
        let i = choose|i: int| 0 <= i < s.len() && s[i] == d;
        assert(a[i + 1] == d);
    }
}

/// Of two lists that ascend strictly, the shared list ascends strictly and
/// holds an identifier if and only if both lists hold it.
pub proof fn lemma_intersect_sorted(a: Seq<DocId>, b: Seq<DocId>)
    requires
        strictly_ascending_ids(a),
        strictly_ascending_ids(b),
    ensures
        strictly_ascending_ids(intersect_spec(a, b)),
        forall|d: DocId|
            #![trigger intersect_spec(a, b).contains(d)]
            intersect_spec(a, b).contains(d) <==> a.contains(d) && b.contains(d),
    decreases a.len() + b.len(),
{
    let r = intersect_spec(a, b);
    if a.len() == 0 || b.len() == 0 {
        assert forall|d: DocId| #![trigger r.contains(d)] r.contains(d) <==> a.contains(d)
            && b.contains(d) by {}
    } else {
        lemma_skip_ascending(a);
        lemma_skip_ascending(b);
        if a[0] == b[0] {
            let rest = intersect_spec(a.skip(1), b.skip(1));
            lemma_intersect_sorted(a.skip(1), b.skip(1));
            assert forall|d: DocId| #![trigger r.contains(d)] r.contains(d) <==> a.contains(d)
                && b.contains(d) by {
                if r.contains(d) {
                    let i = choose|i: int| 0 <= i < r.len() && r[i] == d;
                    if i > 0 {
                        assert(rest[i - 1] == d);
                        assert(rest.contains(d));
                    }
                }
                if d == a[0] {
                    assert(r[0] == d);
                }
                if rest.contains(d) {
                    let i = choose|i: int| 0 <= i < rest.len() && rest[i] == d;
                    assert(r[i + 1] == d);
                }
                if a.skip(1).contains(d) && b.contains(d) && d != a[0] {
                    assert(b.skip(1).contains(d));
                }
            }
            assert forall|i: int, j: int| 0 <= i < j < r.len() implies (#[trigger] r[i]).key() < (
            #[trigger] r[j]).key() by {
                assert(r[j] == rest[j - 1]);
                assert(rest.contains(rest[j - 1]));
                if i > 0 {
                    assert(r[i] == rest[i - 1]);
                }
            }
        } else if a[0].key() < b[0].key() {
            lemma_intersect_sorted(a.skip(1), b);
            assert forall|d: DocId| #![trigger r.contains(d)] r.contains(d) <==> a.contains(d)
                && b.contains(d) by {
                if d == a[0] && b.contains(d) {
                    assert(b.skip(1).contains(d));
                }
            }
        } else {
            lemma_intersect_sorted(a, b.skip(1));
            assert forall|d: DocId| #![trigger r.contains(d)] r.contains(d) <==> a.contains(d)
                && b.contains(d) by {
                if d == b[0] && a.contains(d) {
                    assert(a.skip(1).contains(d));
                    crate::db::lemma_key_injective(a[0], b[0]);
                }
            }
        }
    }
}

/// The identifiers that both lists hold, found by walking both lists from
/// the front.
pub fn intersect(curr: &Vec<DocId>, other: &Vec<DocId>) -> (result: Vec<DocId>)
    ensures
        result@ == intersect_spec(curr@, other@),
{
    let mut result: Vec<DocId> = Vec::new();
    let mut i: usize = 0;
    let mut j: usize = 0;
    proof {
        assert(curr@.skip(0) =~= curr@);
        assert(other@.skip(0) =~= other@);
        assert(result@ + intersect_spec(curr@, other@) =~= intersect_spec(curr@, other@));
    }
    while i < curr.len() && j < other.len()
        invariant
            i <= curr@.len(),
            j <= other@.len(),
            result@ + intersect_spec(curr@.skip(i as int), other@.skip(j as int)) == intersect_spec(
                curr@,
                other@,
            ),
        decreases curr.len() - i + other.len() - j,
    {
        let ghost a = curr@.skip(i as int);
        let ghost b = other@.skip(j as int);
        proof {
            assert(a[0] == curr@[i as int]);
            assert(b[0] == other@[j as int]);
            assert(a.skip(1) =~= curr@.skip(i + 1));
            assert(b.skip(1) =~= other@.skip(j + 1));
        }
        if curr[i] == other[j] {
            let ghost before = result@;
            result.push(curr[i]);
            proof {
                assert(result@ + intersect_spec(a.skip(1), b.skip(1)) =~= before + intersect_spec(
                    a,
                    b,
                ));
            }
            i = i + 1;
            j = j + 1;
        } else if curr[i].precedes(&other[j]) {
            i = i + 1;
        } else {
            j = j + 1;
        }
    }
    proof {
        assert(intersect_spec(curr@.skip(i as int), other@.skip(j as int)) =~= Seq::<
            DocId,
        >::empty());
        assert(result@ + Seq::<DocId>::empty() =~= result@);
    }
    result
}

} // verus!
