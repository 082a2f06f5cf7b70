//! How often each term stands in a list of words.

use crate::term_map::{key_views, TermMap};
use vstd::prelude::*;

verus! {

/// How often `t` stands in `words`.
pub open spec fn count_in(words: Seq<Seq<u8>>, t: Seq<u8>) -> nat
    decreases words.len(),
{
    if words.len() == 0 {
        0
    } else {
        count_in(words.drop_last(), t) + if words.last() == t {
            1nat
        } else {
            0nat
        }
    }
}

/// The map holds the terms of `words`, each with the number of times it
/// stands there.
pub open spec fn counts_of(m: TermMap<u64>, words: Seq<Seq<u8>>) -> bool {
    &&& m.wf()
    &&& forall|t: Seq<u8>| #[trigger] m@.contains_key(t) <==> count_in(words, t) >= 1
    &&& forall|t: Seq<u8>| #[trigger] m@.contains_key(t) ==> m@[t] == count_in(words, t)
}

/// No word stands more often in a list than the list has words.
pub proof fn lemma_count_in_bound(words: Seq<Seq<u8>>, t: Seq<u8>)
    ensures
        count_in(words, t) <= words.len(),
    decreases words.len(),
{
    if words.len() > 0 {
        lemma_count_in_bound(words.drop_last(), t);
    }
}

/// A word that stands in the list is counted.
pub proof fn lemma_count_in_positive(words: Seq<Seq<u8>>, i: int)
    requires
        0 <= i < words.len(),
    ensures
        count_in(words, words[i]) >= 1,
    decreases words.len(),
{
    if i < words.len() - 1 {
        lemma_count_in_positive(words.drop_last(), i);
    }
}

/// A word that is counted stands in the list.
pub proof fn lemma_count_in_witness(words: Seq<Seq<u8>>, t: Seq<u8>) -> (i: int)
    requires
        count_in(words, t) >= 1,
    ensures
        0 <= i < words.len(),
        words[i] == t,
    decreases words.len(),
{
    if words.last() == t {
        words.len() - 1
    } else {
        lemma_count_in_witness(words.drop_last(), t)
    }
}

/// Counts the words: the result holds each term of `words` once, with the
/// number of times it stands there.
pub fn count_terms(words: &Vec<Vec<u8>>) -> (m: TermMap<u64>)
    ensures
        counts_of(m, key_views(words@)),
{
    let mut m: TermMap<u64> = TermMap::new();
    let ghost all = key_views(words@);
    let mut i: usize = 0;
    while i < words.len()
        invariant
            i <= words@.len(),
            all == key_views(words@),
            counts_of(m, all.take(i as int)),
        decreases words.len() - i,
    {
        let ghost seen = all.take(i as int);
        let ghost word = words@[i as int]@;
        let ghost before = m;
        proof {
            assert(all.take(i + 1).drop_last() =~= seen);
            assert(all.take(i + 1).last() == word);
            lemma_count_in_bound(seen, word);
        }
        let (found, idx) = m.find(words[i].as_slice());
        if found {
            let n = m.values[idx];
            m.values[idx] = n + 1;
            proof {
                m.lemma_replaced(&before, idx as int);
            }
        } else {
            let key = crate::bytes::copy_range(words[i].as_slice(), 0, words[i].len());
            proof {
                assert(key@ =~= word);
            }
            m.insert(idx, key, 1);
        }
        i = i + 1;
    }
    proof {
        assert(all.take(i as int) =~= all);
    }
    m
}

} // verus!
