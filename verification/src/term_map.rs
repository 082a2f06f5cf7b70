//! A map from terms to values that keeps its terms in ascending order.

use crate::bytes::{compare_bytes, lemma_lex_transitive, lemma_lex_trichotomy, lex_lt, Sign};
use vstd::prelude::*;

verus! {

/// The terms of a map, in the order in which it holds them.
pub open spec fn key_views(keys: Seq<Vec<u8>>) -> Seq<Seq<u8>> {
    Seq::new(keys.len(), |i: int| keys[i]@)
}

/// Each term comes before the terms behind it.
pub open spec fn strictly_ascending(terms: Seq<Seq<u8>>) -> bool {
    forall|i: int, j: int|
        0 <= i < j < terms.len() ==> lex_lt(#[trigger] terms[i], #[trigger] terms[j])
}

/// A map from terms to values, held as two vectors of one length: the
/// terms in ascending order, none twice, and the value of each term at the
/// term's index.
#[derive(Clone, Debug, PartialEq, Eq)]
pub struct TermMap<V> {
    pub keys: Vec<Vec<u8>>,
    pub values: Vec<V>,
}

impl<V> View for TermMap<V> {
    type V = Map<Seq<u8>, V>;

    open spec fn view(&self) -> Map<Seq<u8>, V> {
        Map::new(|t: Seq<u8>| self.has(t), |t: Seq<u8>| self.values@[self.index_of(t)])
    }
}

impl<V> TermMap<V> {
    /// The terms of the map in ascending order.
    pub open spec fn terms(&self) -> Seq<Seq<u8>> {
        key_views(self.keys@)
    }

    /// The two vectors have one length and the terms ascend strictly.
    pub open spec fn wf(&self) -> bool {
        &&& self.keys@.len() == self.values@.len()
        &&& strictly_ascending(self.terms())
    }

    /// The map holds the term.
    pub open spec fn has(&self, t: Seq<u8>) -> bool {
        exists|i: int| 0 <= i < self.keys@.len() && #[trigger] self.keys@[i]@ == t
    }

    /// The index at which the map holds the term.
    pub open spec fn index_of(&self, t: Seq<u8>) -> int {
        choose|i: int| 0 <= i < self.keys@.len() && #[trigger] self.keys@[i]@ == t
    }

    /// A term stands at one index only, and its value there.
    pub proof fn lemma_index(&self, i: int)
        requires
            self.wf(),
            0 <= i < self.keys@.len(),
        ensures
            self.has(self.keys@[i]@),
            self.index_of(self.keys@[i]@) == i,
            self@.contains_key(self.keys@[i]@),
            self@[self.keys@[i]@] == self.values@[i],
    {
        let t = self.keys@[i]@;
        let k = self.index_of(t);
        assert(self.terms()[i] == t);
        assert(self.terms()[k] == t);
        if k < i {
            lemma_lex_trichotomy(self.terms()[k], self.terms()[i]);
        } else if i < k {
            lemma_lex_trichotomy(self.terms()[i], self.terms()[k]);
        }
    }

    /// An empty map.
    pub fn new() -> (m: TermMap<V>)
        ensures
            m.wf(),
            m@ == Map::<Seq<u8>, V>::empty(),
            m.keys@.len() == 0,
    {
        let m = TermMap { keys: Vec::new(), values: Vec::new() };
        assert(m@ =~= Map::<Seq<u8>, V>::empty());
        m
    }

    /// Whether the map is well-formed: whether its two vectors have one
    /// length and its terms ascend strictly.
    pub fn is_wf(&self) -> (ok: bool)
        ensures
            ok == self.wf(),
    {
        if self.keys.len() != self.values.len() {
            return false;
        }
        let mut i: usize = 1;
        while i < self.keys.len()
            invariant
                1 <= i,
                self.keys@.len() == self.values@.len(),
                forall|a: int, b: int|
                    0 <= a < b < i && b < self.keys@.len() ==> lex_lt(
                        #[trigger] self.keys@[a]@,
                        #[trigger] self.keys@[b]@,
                    ),
            decreases self.keys.len() - i,
        {
            match compare_bytes(self.keys[i - 1].as_slice(), self.keys[i].as_slice()) {
                Sign::Less => {
                    proof {
                        assert forall|a: int, b: int|
                            0 <= a < b < i + 1 && b < self.keys@.len() implies lex_lt(
                            #[trigger] self.keys@[a]@,
                            #[trigger] self.keys@[b]@,
                        ) by {
                            if b == i && a < i - 1 {
                                lemma_lex_transitive(
                                    self.keys@[a]@,
                                    self.keys@[i - 1]@,
                                    self.keys@[i as int]@,
                                );
                            }
                        }
                    }
                },
                _ => {
                    proof {
                        lemma_lex_trichotomy(self.keys@[i - 1]@, self.keys@[i as int]@);
                        assert(self.terms()[i - 1] == self.keys@[i - 1]@);
                        assert(self.terms()[i as int] == self.keys@[i as int]@);
                    }
                    return false;
                },
            }
            i = i + 1;
        }
        proof {
            assert forall|a: int, b: int| 0 <= a < b < self.terms().len() implies lex_lt(
                #[trigger] self.terms()[a],
                #[trigger] self.terms()[b],
            ) by {
                assert(lex_lt(self.keys@[a]@, self.keys@[b]@));
            }
        }
        true
    }

    /// The number of terms.
    pub fn len(&self) -> (n: usize)
        ensures
            n == self.keys@.len(),
    {
        self.keys.len()
    }

    /// Looks the term up. Where the map holds it, the result is `true` and
    /// the term's index; where not, `false` and the index at which the term
    /// would have to be inserted.
    pub fn find(&self, term: &[u8]) -> (r: (bool, usize))
        requires
            self.wf(),
        ensures
            r.0 == self.has(term@),
            r.0 == self@.contains_key(term@),
            r.1 <= self.keys@.len(),
            r.0 ==> r.1 < self.keys@.len() && self.keys@[r.1 as int]@ == term@ && self@[term@]
                == self.values@[r.1 as int],
            !r.0 ==> self.slot(term@, r.1 as int),
    {
        let mut lo: usize = 0;
        let mut hi: usize = self.keys.len();
        while lo < hi
            invariant
                self.wf(),
                lo <= hi <= self.keys@.len(),
                forall|i: int| 0 <= i < lo ==> lex_lt(#[trigger] self.keys@[i]@, term@),
                forall|i: int|
                    hi <= i < self.keys@.len() ==> lex_lt(term@, #[trigger] self.keys@[i]@),
            decreases hi - lo,
        {
            let mid = lo + (hi - lo) / 2;
            match compare_bytes(self.keys[mid].as_slice(), term) {
                Sign::Less => {
                    proof {
                        assert forall|i: int| 0 <= i < mid + 1 implies lex_lt(
                            #[trigger] self.keys@[i]@,
                            term@,
                        ) by {
                            if i < mid {
                                assert(lex_lt(self.terms()[i], self.terms()[mid as int]));
                                lemma_lex_transitive(
                                    self.keys@[i]@,
                                    self.keys@[mid as int]@,
                                    term@,
                                );
                            }
                        }
                    }
                    lo = mid + 1;
                },
                Sign::Greater => {
                    proof {
                        assert forall|i: int| mid <= i < self.keys@.len() implies lex_lt(
                            term@,
                            #[trigger] self.keys@[i]@,
                        ) by {
                            if mid < i {
                                assert(lex_lt(self.terms()[mid as int], self.terms()[i]));
                                lemma_lex_transitive(
                                    term@,
                                    self.keys@[mid as int]@,
                                    self.keys@[i]@,
                                );
                            }
                        }
                    }
                    hi = mid;
                },
                Sign::Equal => {
                    proof {
                        self.lemma_index(mid as int);
                    }
                    return (true, mid);
                },
            }
        }
        proof {
            assert forall|i: int| 0 <= i < self.keys@.len() implies #[trigger] self.keys@[i]@
                != term@ by {
                lemma_lex_trichotomy(self.keys@[i]@, term@);
            }
        }
        (false, lo)
    }

    /// `i` is where `t`, which the map does not hold, belongs: behind the
    /// terms that come before it and before those that come after it.
    pub open spec fn slot(&self, t: Seq<u8>, i: int) -> bool {
        &&& 0 <= i <= self.keys@.len()
        &&& forall|k: int| 0 <= k < i ==> lex_lt(#[trigger] self.keys@[k]@, t)
        &&& forall|k: int| i <= k < self.keys@.len() ==> lex_lt(t, #[trigger] self.keys@[k]@)
    }

    /// Inserts a term that the map does not hold at the index where it
    /// belongs.
    pub fn insert(&mut self, idx: usize, term: Vec<u8>, value: V)
        requires
            old(self).wf(),
            old(self).slot(term@, idx as int),
        ensures
            final(self).wf(),
            final(self).keys@ == old(self).keys@.insert(idx as int, term),
            final(self).values@ == old(self).values@.insert(idx as int, value),
            final(self)@ == old(self)@.insert(term@, value),
    {
        let ghost t = term@;
        self.keys.insert(idx, term);
        self.values.insert(idx, value);
        proof {
            let old_terms = old(self).terms();
            assert forall|i: int, j: int| 0 <= i < j < self.terms().len() implies lex_lt(
                #[trigger] self.terms()[i],
                #[trigger] self.terms()[j],
            ) by {
                let a = if i < idx { i } else { i - 1 };
                let b = if j < idx { j } else { j - 1 };
                if i != idx && j != idx {
                    assert(lex_lt(old_terms[a], old_terms[b]));
                } else if i == idx {
                    assert(lex_lt(t, old(self).keys@[b]@));
                } else {
                    assert(lex_lt(old(self).keys@[a]@, t));
                }
            }
            assert forall|i: int| 0 <= i < old(self).keys@.len() implies #[trigger] old(
                self,
            ).keys@[i]@ != t by {
                lemma_lex_trichotomy(old(self).keys@[i]@, t);
            }
            assert forall|x: Seq<u8>| #[trigger] self.has(x) == (old(self).has(x) || x == t) by {
                if old(self).has(x) {
                    let k = old(self).index_of(x);
                    let k2 = if k < idx { k } else { k + 1 };
                    assert(self.keys@[k2]@ == x);
                }
                if x == t {
                    assert(self.keys@[idx as int]@ == x);
                }
                if self.has(x) {
                    let k = self.index_of(x);
                    if k != idx {
                        let k0 = if k < idx { k } else { k - 1 };
                        assert(old(self).keys@[k0]@ == x);
                    }
                }
            }
            assert forall|x: Seq<u8>| #[trigger] self.has(x) implies self@[x] == old(self)@.insert(
                t,
                value,
            )[x] by {
                let k = self.index_of(x);
                if k == idx {
                } else {
                    let k0 = if k < idx { k } else { k - 1 };
                    assert(old(self).keys@[k0]@ == x);
                    old(self).lemma_index(k0);
                }
            }
            assert(self@ =~= old(self)@.insert(t, value));
        }
    }

    /// What the map is once the value at index `i` has been replaced.
    pub proof fn lemma_replaced(&self, before: &TermMap<V>, i: int)
        requires
            before.wf(),
            0 <= i < before.keys@.len(),
            self.keys@ == before.keys@,
            self.values@ == before.values@.update(i, self.values@[i]),
        ensures
            self.wf(),
            self@ == before@.insert(before.keys@[i]@, self.values@[i]),
    {
        assert(self.terms() =~= before.terms());
        before.lemma_index(i);
        assert forall|x: Seq<u8>| #[trigger] self.has(x) == before.has(x) by {
            if before.has(x) {
                assert(self.keys@[before.index_of(x)]@ == x);
            }
            if self.has(x) {
                assert(before.keys@[self.index_of(x)]@ == x);
            }
        }
        assert forall|x: Seq<u8>| #[trigger] self.has(x) implies self@[x] == before@.insert(
            before.keys@[i]@,
            self.values@[i],
        )[x] by {
            let k = self.index_of(x);
            self.lemma_index(k);
            before.lemma_index(k);
        }
        assert(self@ =~= before@.insert(before.keys@[i]@, self.values@[i]));
    }
}

} // verus!
