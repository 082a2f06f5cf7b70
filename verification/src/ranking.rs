//! Choosing the best of the scored documents.

use crate::db::DocId;
use vstd::prelude::*;

verus! {

/// A document with its score. A larger score is a better one; of two
/// documents with one score the one with the larger identifier is the
/// better.
#[derive(Clone, Copy, Debug, PartialEq, Eq, Structural)]
pub struct Scored {
    pub score: u64,
    pub doc: DocId,
}

/// `a` is better than `b`.
pub open spec fn better(a: Scored, b: Scored) -> bool {
    a.score > b.score || (a.score == b.score && a.doc.key() > b.doc.key())
}

/// The index of the best of `s`, the first of them where several are
/// equally good.
pub open spec fn best_index(s: Seq<Scored>) -> int
    decreases s.len(),
{
    if s.len() <= 1 {
        0
    } else if better(s.last(), s[best_index(s.drop_last())]) {
        s.len() - 1
    } else {
        best_index(s.drop_last())
    }
}

/// The best `n` of `s`, the best first: the best of all, then the best of
/// what is left, and so on.
pub open spec fn best_items(s: Seq<Scored>, n: nat) -> Seq<Scored>
    decreases n,
{
    if n == 0 || s.len() == 0 {
        Seq::empty()
    } else {
        seq![s[best_index(s)]] + best_items(s.remove(best_index(s)), (n - 1) as nat)
    }
}

/// The documents of the best `n` of `s`, the best first.
pub open spec fn best_first(s: Seq<Scored>, n: nat) -> Seq<DocId> {
    Seq::new(best_items(s, n).len(), |i: int| best_items(s, n)[i].doc)
}

/// The best of `s` is one of `s`, and none of `s` is better.
pub proof fn lemma_best_index(s: Seq<Scored>)
    requires
        s.len() > 0,
    ensures
        0 <= best_index(s) < s.len(),
        forall|i: int| 0 <= i < s.len() ==> !better(#[trigger] s[i], s[best_index(s)]),
    decreases s.len(),
{
    if s.len() > 1 {
        lemma_best_index(s.drop_last());
        let j = best_index(s.drop_last());
        assert(s.drop_last()[j] == s[j]);
        assert forall|i: int| 0 <= i < s.len() implies !better(
            #[trigger] s[i],
            s[best_index(s)],
        ) by {
            if i < s.len() - 1 {
                assert(s.drop_last()[i] == s[i]);
            }
        }
    }
}

/// The chosen documents are as many as were asked for, or all of them
/// where there are fewer.
pub proof fn lemma_best_first_len(s: Seq<Scored>, n: nat)
    ensures
        best_items(s, n).len() == if n <= s.len() {
            n
        } else {
            s.len()
        },
        best_first(s, n).len() == best_items(s, n).len(),
    decreases n,
{
    if n > 0 && s.len() > 0 {
        lemma_best_index(s);
        lemma_best_first_len(s.remove(best_index(s)), (n - 1) as nat);
    }
}

/// Each of the chosen is one of `s`.
pub proof fn lemma_best_items_chosen(s: Seq<Scored>, n: nat, i: int)
    requires
        0 <= i < best_items(s, n).len(),
    ensures
        s.contains(best_items(s, n)[i]),
    decreases n,
{
    lemma_best_index(s);
    let b = best_index(s);
    if i == 0 {
        assert(s[b] == best_items(s, n)[0]);
    } else {
        let rest = s.remove(b);
        lemma_best_items_chosen(rest, (n - 1) as nat, i - 1);
        let x = best_items(rest, (n - 1) as nat)[i - 1];
        let k = choose|k: int| 0 <= k < rest.len() && rest[k] == x;
        if k < b {
            assert(s[k] == x);
        } else {
            assert(s[k + 1] == x);
        }
    }
}

/// The chosen come best first: none of them is better than one that comes
/// before it.
pub proof fn lemma_best_items_descend(s: Seq<Scored>, n: nat, i: int, j: int)
    requires
        0 <= i < j < best_items(s, n).len(),
    ensures
        !better(best_items(s, n)[j], best_items(s, n)[i]),
    decreases n,
{
    lemma_best_index(s);
    let b = best_index(s);
    let rest = s.remove(b);
    if i == 0 {
        lemma_best_items_chosen(rest, (n - 1) as nat, j - 1);
        let x = best_items(rest, (n - 1) as nat)[j - 1];
        let k = choose|k: int| 0 <= k < rest.len() && rest[k] == x;
        if k < b {
            assert(s[k] == x);
        } else {
            assert(s[k + 1] == x);
        }
    } else {
        lemma_best_items_descend(rest, (n - 1) as nat, i - 1, j - 1);
    }
}

/// Where fewer are chosen than there are, all are chosen that were asked
/// for, and what is left over is no better than the last of the chosen:
/// each of `s` is among the chosen or no better than any of them.
pub proof fn lemma_best_items_are_best(s: Seq<Scored>, n: nat, k: int, i: int)
    requires
        0 <= k < s.len(),
        0 <= i < best_items(s, n).len(),
    ensures
        (exists|j: int| 0 <= j < best_items(s, n).len() && best_items(s, n)[j] == s[k]) || !better(
            s[k],
            best_items(s, n)[i],
        ),
    decreases n,
{
    lemma_best_index(s);
    let b = best_index(s);
    let rest = s.remove(b);
    let items = best_items(s, n);
    if k == b {
        assert(items[0] == s[k]);
    } else if i == 0 {
    } else {
        let k0 = if k < b {
            k
        } else {
            k - 1
        };
        assert(rest[k0] == s[k]);
        lemma_best_items_are_best(rest, (n - 1) as nat, k0, i - 1);
        let sub = best_items(rest, (n - 1) as nat);
        if exists|j: int| 0 <= j < sub.len() && sub[j] == s[k] {
            let j = choose|j: int| 0 <= j < sub.len() && sub[j] == s[k];
            assert(items[j + 1] == s[k]);
        } else {
            assert(items[i] == sub[i - 1]);
        }
    }
}

/// Where as many are asked for as there are, all are chosen.
pub proof fn lemma_best_first_holds_all(s: Seq<Scored>, n: nat, k: int)
    requires
        s.len() <= n,
        0 <= k < s.len(),
    ensures
        best_items(s, n).contains(s[k]),
        best_first(s, n).contains(s[k].doc),
    decreases n,
{
    lemma_best_index(s);
    let b = best_index(s);
    let rest = s.remove(b);
    let items = best_items(s, n);
    if k == b {
        assert(items[0] == s[k]);
    } else {
        let k0 = if k < b {
            k
        } else {
            k - 1
        };
        assert(rest[k0] == s[k]);
        lemma_best_first_holds_all(rest, (n - 1) as nat, k0);
        let sub = best_items(rest, (n - 1) as nat);
        let j = choose|j: int| 0 <= j < sub.len() && sub[j] == s[k];
        assert(items[j + 1] == s[k]);
    }
    let i = choose|i: int| 0 <= i < items.len() && items[i] == s[k];
    assert(best_first(s, n)[i] == s[k].doc);
}

/// No two of `s` are of one document.
pub open spec fn distinct_docs(s: Seq<Scored>) -> bool {
    forall|i: int, j: int| 0 <= i < j < s.len() ==> (#[trigger] s[i]).doc != (#[trigger] s[j]).doc
}

/// Where no two of `s` are of one document, no document is chosen twice.
pub proof fn lemma_best_first_distinct(s: Seq<Scored>, n: nat, i: int, j: int)
    requires
        distinct_docs(s),
        0 <= i < j < best_first(s, n).len(),
    ensures
        best_first(s, n)[i] != best_first(s, n)[j],
    decreases n,
{
    lemma_best_index(s);
    let b = best_index(s);
    let rest = s.remove(b);
    assert(distinct_docs(rest)) by {
        assert forall|x: int, y: int| 0 <= x < y < rest.len() implies (#[trigger] rest[x]).doc != (
        #[trigger] rest[y]).doc by {
            let x0 = if x < b {
                x
            } else {
                x + 1
            };
            let y0 = if y < b {
                y
            } else {
                y + 1
            };
            assert(rest[x] == s[x0] && rest[y] == s[y0]);
        }
    }
    let sub = best_items(rest, (n - 1) as nat);
    assert(best_items(s, n)[j] == sub[j - 1]);
    if i == 0 {
        lemma_best_items_chosen(rest, (n - 1) as nat, j - 1);
        let k = choose|k: int| 0 <= k < rest.len() && rest[k] == sub[j - 1];
        let k0 = if k < b {
            k
        } else {
            k + 1
        };
        assert(rest[k] == s[k0]);
        if k0 < b {
            assert(s[k0].doc != s[b].doc);
        } else {
            assert(s[b].doc != s[k0].doc);
        }
    } else {
        assert(best_items(s, n)[i] == sub[i - 1]);
        lemma_best_first_len(rest, (n - 1) as nat);
        lemma_best_first_distinct(rest, (n - 1) as nat, i - 1, j - 1);
    }
}

/// The index of the best of `s`.
pub fn find_best(s: &Vec<Scored>) -> (best: usize)
    requires
        s@.len() > 0,
    ensures
        best == best_index(s@),
        best < s@.len(),
{
    let mut best: usize = 0;
    let mut i: usize = 1;
    proof {
        assert(s@.take(1).len() == 1);
    }
    while i < s.len()
        invariant
            1 <= i <= s@.len(),
            best < i,
            best == best_index(s@.take(i as int)),
        decreases s.len() - i,
    {
        proof {
            assert(s@.take(i + 1).drop_last() =~= s@.take(i as int));
            assert(s@.take(i + 1).last() == s@[i as int]);
            assert(s@.take(i + 1)[best as int] == s@[best as int]);
        }
        let a = s[i];
        let b = s[best];
        if a.score > b.score || (a.score == b.score && b.doc.precedes(&a.doc)) {
            best = i;
        }
        i = i + 1;
    }
    proof {
        assert(s@.take(i as int) =~= s@);
    }
    best
}

/// The best `top_n` of the scored documents, the best first.
pub fn top_documents(scored: Vec<Scored>, top_n: u64) -> (result: Vec<DocId>)
    ensures
        result@ == best_first(scored@, top_n as nat),
{
    let mut rest = scored;
    let mut result: Vec<DocId> = Vec::new();
    let ghost mut chosen: Seq<Scored> = Seq::empty();
    let mut taken: u64 = 0;
    proof {
        assert(chosen + best_items(rest@, top_n as nat) =~= best_items(scored@, top_n as nat));
    }
    while taken < top_n && rest.len() > 0
        invariant
            taken <= top_n,
            result@.len() == chosen.len(),
            forall|i: int| 0 <= i < chosen.len() ==> result@[i] == (#[trigger] chosen[i]).doc,
            chosen + best_items(rest@, (top_n - taken) as nat) == best_items(
                scored@,
                top_n as nat,
            ),
        decreases top_n - taken,
    {
        let best = find_best(&rest);
        let ghost before = rest@;
        let item = rest.remove(best);
        proof {
            assert(chosen.push(item) + best_items(rest@, (top_n - taken - 1) as nat) =~= chosen
                + best_items(before, (top_n - taken) as nat));
            chosen = chosen.push(item);
        }
        result.push(item.doc);
        taken = taken + 1;
    }
    proof {
        assert(best_items(rest@, (top_n - taken) as nat) =~= Seq::<Scored>::empty());
        assert(chosen + Seq::<Scored>::empty() =~= chosen);
        assert(result@ =~= best_first(scored@, top_n as nat));
    }
    result
}

} // verus!
