//! A table of pair frequencies, with the pairs it holds kept in the order in
//! which they were first counted.

use std::collections::HashMap;
use vstd::prelude::*;
use crate::training::{count_in, sum_counts, Counts};

verus! {

/// The key under which a pair is stored: the left identifier in the upper
/// half of the number, the right one in the lower half.
pub open spec fn pair_key(p: (usize, usize)) -> u128 {
    (p.0 as int * 0x1_0000_0000_0000_0000 + p.1 as int) as u128
}

/// Different pairs have different keys.
pub proof fn lemma_pair_key_injective(p: (usize, usize), q: (usize, usize))
    ensures
        pair_key(p) == pair_key(q) ==> p == q,
{
}

/// The key of the pair of `left` and `right`.
fn key_of(left: usize, right: usize) -> (key: u128)
    ensures
        key == pair_key((left, right)),
{
    (left as u128) * 0x1_0000_0000_0000_0000u128 + (right as u128)
}

/// Frequencies of pairs of symbols. A pair that is not held has frequency
/// zero; a pair that is held has a frequency above zero.
pub struct PairCounts {
    counts: HashMap<u128, usize>,
    pairs: Vec<(usize, usize)>,
}

impl View for PairCounts {
    type V = Counts;

    /// The pairs that are held, each with its frequency.
    closed spec fn view(&self) -> Counts {
        Map::new(
            |p: (usize, usize)| self.counts@.contains_key(pair_key(p)),
            |p: (usize, usize)| self.counts@[pair_key(p)] as nat,
        )
    }
}

/// `p` is among the first `n` pairs of `list`.
pub open spec fn listed_before(list: Seq<(usize, usize)>, n: int, p: (usize, usize)) -> bool {
    exists|k: int| 0 <= k < n && k < list.len() && #[trigger] list[k] == p
}

/// The pairs among the first `n` of `list` that `held` does not hold, in the
/// order of the list.
pub open spec fn fresh_upto(list: Seq<(usize, usize)>, held: Counts, n: int) -> Seq<(usize, usize)>
    decreases n,
{
    if n <= 0 {
        Seq::empty()
    } else if held.contains_key(list[n - 1]) {
        fresh_upto(list, held, n - 1)
    } else {
        fresh_upto(list, held, n - 1).push(list[n - 1])
    }
}

impl PairCounts {
    /// The pairs that are held, each once, in the order in which they came.
    pub closed spec fn listed(&self) -> Seq<(usize, usize)> {
        self.pairs@
    }

    /// The list holds exactly the pairs of the table, each once, and no
    /// frequency is zero.
    pub closed spec fn wf(&self) -> bool {
        &&& self.pairs@.no_duplicates()
        &&& forall|i: int|
            0 <= i < self.pairs.len() ==> self.counts@.contains_key(
                pair_key(#[trigger] self.pairs@[i]),
            )
        &&& forall|k: u128| #[trigger]
            self.counts@.contains_key(k) ==> self.counts@[k] > 0 && exists|i: int|
                0 <= i < self.pairs.len() && pair_key(#[trigger] self.pairs@[i]) == k
    }

    /// What a well-formed table is to its users.
    pub proof fn lemma_wf(&self)
        requires
            self.wf(),
        ensures
            self.listed().no_duplicates(),
            forall|p: (usize, usize)|
                #[trigger] self@.contains_key(p) <==> self.listed().contains(p),
            forall|p: (usize, usize)|
                #[trigger] self@.contains_key(p) ==> 0 < self@[p] <= usize::MAX,
    {
        let list = self.listed();
        assert forall|p: (usize, usize)| #[trigger] self@.contains_key(p) implies list.contains(
            p,
        ) by {
            let k = pair_key(p);
            assert(self.counts@.contains_key(k));
            let i = choose|i: int|
                0 <= i < self.pairs.len() && pair_key(#[trigger] self.pairs@[i]) == k;
            lemma_pair_key_injective(self.pairs@[i], p);
        }
        assert forall|p: (usize, usize)| list.contains(p) implies #[trigger] self@.contains_key(
            p,
        ) by {
            let i = choose|i: int| 0 <= i < self.pairs@.len() && self.pairs@[i] == p;
            assert(self.counts@.contains_key(pair_key(self.pairs@[i])));
        }
    }

    /// A pair is held exactly when its frequency is above zero.
    pub proof fn lemma_positive(&self)
        requires
            self.wf(),
        ensures
            forall|p: (usize, usize)| self@.contains_key(p) <==> #[trigger] count_in(self@, p) > 0,
    {
        self.lemma_wf();
    }

    /// The table that holds no pair.
    pub fn new() -> (c: PairCounts)
        ensures
            c.wf(),
            c@ == Map::<(usize, usize), nat>::empty(),
            c.listed().len() == 0,
    {
        let c = PairCounts { counts: HashMap::new(), pairs: Vec::new() };
        assert(c@ =~= Map::<(usize, usize), nat>::empty());
        c
    }

    /// The frequency of the pair of `left` and `right`.
    pub fn get(&self, left: usize, right: usize) -> (n: usize)
        ensures
            n == count_in(self@, (left, right)),
    {
        broadcast use vstd::std_specs::hash::group_hash_axioms;

        let key = key_of(left, right);
        match self.counts.get(&key) {
            Some(n) => *n,
            None => 0,
        }
    }

    /// The pairs that are held, each once, in the order in which they came.
    pub fn pairs(&self) -> (list: &Vec<(usize, usize)>)
        ensures
            list@ == self.listed(),
    {
        &self.pairs
    }

    /// Raises the frequency of the pair of `left` and `right` by `amount`.
    pub fn add(&mut self, left: usize, right: usize, amount: usize)
        requires
            old(self).wf(),
            amount > 0,
            count_in(old(self)@, (left, right)) + amount <= usize::MAX,
        ensures
            final(self).wf(),
            final(self)@ == old(self)@.insert(
                (left, right),
                count_in(old(self)@, (left, right)) + amount as nat,
            ),
            old(self)@.contains_key((left, right)) ==> final(self).listed() == old(self).listed(),
            !old(self)@.contains_key((left, right)) ==> final(self).listed() == old(
                self,
            ).listed().push((left, right)),
    {
        broadcast use vstd::std_specs::hash::group_hash_axioms;

        let ghost before = *self;
        let key = key_of(left, right);
        let now = self.get(left, right) + amount;
        let had = self.counts.insert(key, now);
        if had.is_none() {
            self.pairs.push((left, right));
        }
        proof {
            let p = (left, right);
            assert forall|q: (usize, usize)| q != p implies pair_key(q) != key by {
                lemma_pair_key_injective(q, p);
            }
            assert(self@ =~= before@.insert(p, count_in(before@, p) + amount as nat));
            assert forall|k: u128| #[trigger] self.counts@.contains_key(k) implies self.counts@[k]
                > 0 && exists|i: int|
                0 <= i < self.pairs.len() && pair_key(#[trigger] self.pairs@[i]) == k by {
                if k == key {
                    if had.is_none() {
                        assert(pair_key(self.pairs@[before.pairs.len() as int]) == k);
                    } else {
                        assert(before.counts@.contains_key(k));
                        let i = choose|i: int|
                            0 <= i < before.pairs.len() && pair_key(#[trigger] before.pairs@[i])
                                == k;
                        assert(pair_key(self.pairs@[i]) == k);
                    }
                } else {
                    assert(before.counts@.contains_key(k));
                    let i = choose|i: int|
                        0 <= i < before.pairs.len() && pair_key(#[trigger] before.pairs@[i]) == k;
                    assert(pair_key(self.pairs@[i]) == k);
                }
            }
            assert forall|i: int| 0 <= i < self.pairs.len() implies self.counts@.contains_key(
                pair_key(#[trigger] self.pairs@[i]),
            ) by {
                if i < before.pairs.len() {
                    assert(before.counts@.contains_key(pair_key(before.pairs@[i])));
                }
            }
            if had.is_none() {
                assert forall|i: int| 0 <= i < before.pairs.len() implies before.pairs@[i]
                    != p by {
                    assert(before.counts@.contains_key(pair_key(before.pairs@[i])));
                }
            }
        }
    }

    /// Adds the frequencies of `other` to this table.
    pub fn absorb(&mut self, other: &PairCounts)
        requires
            old(self).wf(),
            other.wf(),
            forall|p: (usize, usize)|
                count_in(old(self)@, p) + #[trigger] count_in(other@, p) <= usize::MAX,
        ensures
            final(self).wf(),
            final(self)@ == sum_counts(old(self)@, other@),
            final(self).listed() == old(self).listed() + fresh_upto(
                other.listed(),
                old(self)@,
                other.listed().len() as int,
            ),
    {
        let ghost start = self@;
        let ghost start_listed = self.listed();
        let mut i: usize = 0;
        assert(self.listed() =~= start_listed + fresh_upto(other.listed(), start, 0));
        proof {
            other.lemma_wf();
            self.lemma_positive();
        }
        while i < other.pairs.len()
            invariant
                self.wf(),
                other.wf(),
                i <= other.pairs.len(),
                other.listed().no_duplicates(),
                forall|p: (usize, usize)|
                    count_in(start, p) + #[trigger] count_in(other@, p) <= usize::MAX,
                forall|p: (usize, usize)|
                    #[trigger] other@.contains_key(p) <==> other.listed().contains(p),
                forall|p: (usize, usize)| #[trigger]
                    other@.contains_key(p) ==> 0 < other@[p] <= usize::MAX,
                self.listed() == start_listed + fresh_upto(other.listed(), start, i as int),
                forall|p: (usize, usize)|
                    start.contains_key(p) <==> #[trigger] count_in(start, p) > 0,
                forall|p: (usize, usize)|
                    #[trigger] count_in(self@, p) == count_in(start, p) + if listed_before(
                        other.listed(),
                        i as int,
                        p,
                    ) {
                        count_in(other@, p)
                    } else {
                        0
                    },
            decreases other.pairs.len() - i,
        {
            let p = other.pairs[i];
            let n = other.get(p.0, p.1);
            let ghost before = self@;
            proof {
                assert(other.listed().contains(p));
                assert(other@.contains_key(p));
                assert(!listed_before(other.listed(), i as int, p)) by {
                    if listed_before(other.listed(), i as int, p) {
                        let k = choose|k: int|
                            0 <= k < i && k < other.listed().len() && #[trigger] other.listed()[k]
                                == p;
                        assert(other.listed()[k] == other.listed()[i as int]);
                    }
                }
                assert(count_in(before, p) == count_in(start, p));
                assert(count_in(start, p) + count_in(other@, p) <= usize::MAX);
                assert(before.contains_key(p) == start.contains_key(p)) by {
                    self.lemma_positive();
                }
            }
            let ghost listed_before_add = self.listed();
            self.add(p.0, p.1, n);
            proof {
                assert(other.listed()[i as int] == p);
                assert(self.listed() =~= start_listed + fresh_upto(other.listed(), start, i + 1));
                assert forall|q: (usize, usize)| #[trigger]
                    count_in(self@, q) == count_in(start, q) + if listed_before(
                        other.listed(),
                        i + 1,
                        q,
                    ) {
                        count_in(other@, q)
                    } else {
                        0
                    } by {
                    if q == p {
                        assert(other.listed()[i as int] == p);
                        assert(listed_before(other.listed(), i + 1, q));
                    } else {
                        assert(count_in(self@, q) == count_in(before, q));
                        if listed_before(other.listed(), i + 1, q) {
                            let k = choose|k: int|
                                0 <= k < i + 1 && k < other.listed().len()
                                    && #[trigger] other.listed()[k] == q;
                            assert(k < i);
                            assert(listed_before(other.listed(), i as int, q));
                        }
                        if listed_before(other.listed(), i as int, q) {
                            let k = choose|k: int|
                                0 <= k < i && k < other.listed().len()
                                    && #[trigger] other.listed()[k] == q;
                            assert(listed_before(other.listed(), i + 1, q));
                        }
                    }
                }
            }
            i += 1;
        }
        proof {
            self.lemma_wf();
            assert forall|p: (usize, usize)| count_in(self@, p) == count_in(start, p) + count_in(
                other@,
                p,
            ) by {
                if other@.contains_key(p) {
                    assert(other.listed().contains(p));
                    let k = choose|k: int| 0 <= k < other.listed().len() && other.listed()[k] == p;
                    assert(listed_before(other.listed(), i as int, p));
                } else {
                    if listed_before(other.listed(), i as int, p) {
                        let k = choose|k: int|
                            0 <= k < i && k < other.listed().len() && #[trigger] other.listed()[k]
                                == p;
                        assert(other.listed().contains(p));
                    }
                }
                assert(count_in(self@, p) == count_in(start, p) + if listed_before(
                    other.listed(),
                    i as int,
                    p,
                ) {
                    count_in(other@, p)
                } else {
                    0
                });
            }
            assert forall|p: (usize, usize)|
                self@.contains_key(p) <==> #[trigger] sum_counts(start, other@).contains_key(p) by {
                assert(count_in(self@, p) == count_in(start, p) + count_in(other@, p));
                if self@.contains_key(p) {
                    assert(self@[p] > 0);
                }
                if other@.contains_key(p) {
                    assert(other@[p] > 0);
                }
            }
            assert forall|p: (usize, usize)| self@.contains_key(p) implies #[trigger] self@[p]
                == sum_counts(start, other@)[p] by {
                assert(count_in(self@, p) == count_in(start, p) + count_in(other@, p));
            }
            assert(self@ =~= sum_counts(start, other@));
        }
    }
}

} // verus!
