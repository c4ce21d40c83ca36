//! Enumerates, in increasing numeric order, every subset of a 32-bit mask
//! that has a given number of set bits.

pub mod bits;
pub mod raw;
pub mod space;
pub mod counting;

use vstd::prelude::*;
use crate::bits::{popcount, low_bits, lemma_popcount_range, lemma_low_bits_choice};
use crate::raw::{is_choice, is_table_of, count_ones, create_bases, advance};
use crate::space::{
    choices, choices_from, lemma_choices_from_gap, lemma_choices_none, lemma_choices_first,
};
use crate::counting::{binomial, lemma_choices_len};

verus! {

/// The space of all words within a mask that have a given number of ones.
/// It stands for the whole enumeration, not for one word of it.
pub struct Permutations {
    mask: u32,
    count: u32,
}

/// A cursor over one enumeration: it yields the words one by one.
pub struct PermIter {
    bases: [u32; 33],
    ones: u32,
    next: Option<u32>,
}

impl View for PermIter {
    type V = Seq<u32>;

    /// The words that are still to be yielded, in the order in which they come.
    closed spec fn view(&self) -> Seq<u32> {
        match self.next {
            Some(cur) => choices_from(self.bases@[32], self.ones as nat, cur as nat),
            None => Seq::empty(),
        }
    }
}

impl PermIter {
    #[verifier::type_invariant]
    spec fn inv(self) -> bool {
        match self.next {
            Some(cur) => is_table_of(self.bases@, self.bases@[32]) && is_choice(
                self.bases@[32],
                self.ones as nat,
                cur,
            ),
            None => true,
        }
    }

    /// Yields the first of the words that are left, and goes on to the one
    /// after it; yields nothing once none is left.
    pub fn next(&mut self) -> (item: Option<u32>)
        ensures
            old(self)@.len() == 0 ==> item.is_none() && final(self)@ == old(self)@,
            old(self)@.len() > 0 ==> item == Some(old(self)@[0]) && final(self)@ == old(
                self,
            )@.drop_first(),
    {
        proof {
            use_type_invariant(&*self);
        }
        let to_return: Option<u32> = self.next;
        if let Some(last_perm) = self.next {
            let next_perm: u32 = advance(&self.bases, self.ones, last_perm);
            let ghost mask: u32 = self.bases@[32];
            let ghost k: nat = self.ones as nat;
            let ghost after = choices_from(mask, k, last_perm as nat + 1);
            proof {
                assert(old(self)@ == seq![last_perm] + after);
                assert(old(self)@.drop_first() =~= after);
            }
            if next_perm > last_perm {
                proof {
                    lemma_choices_from_gap(mask, k, last_perm as nat + 1, next_perm as nat);
                }
                self.next = Some(next_perm);
            } else {
                proof {
                    lemma_choices_from_gap(mask, k, last_perm as nat + 1, 0x1_0000_0000);
                }
                self.next = None;
            }
        }
        to_return
    }

    /// Yields all the words that are left, in order.
    pub fn collect(self) -> (items: Vec<u32>)
        ensures
            items@ == self@,
    {
        let mut it = self;
        let mut items: Vec<u32> = Vec::new();
        proof {
            assert(items@ + it@ =~= self@);
        }
        loop
            invariant
                items@ + it@ == self@,
            ensures
                it@.len() == 0,
            decreases it@.len(),
        {
            let ghost before = it@;
            let ghost taken = items@;
            let item: Option<u32> = it.next();
            match item {
                Some(v) => {
                    items.push(v);
                    proof {
                        assert(items@ + it@ =~= taken + before);
                    }
                },
                None => {
                    break ;
                },
            }
        }
        proof {
            assert(items@ =~= items@ + it@);
        }
        items
    }
}

impl Permutations {
    #[verifier::type_invariant]
    spec fn inv(self) -> bool {
        self.count <= 32
    }

    /// The mask that every enumerated word lies within.
    pub closed spec fn mask(&self) -> u32 {
        self.mask
    }

    /// The number of ones of every enumerated word.
    pub closed spec fn count(&self) -> nat {
        self.count as nat
    }

    /// The space of the words within `mask` that have `count` ones. A word
    /// has 32 bits, so `count` is at most 32; a count above the number of
    /// ones in `mask` is in order and gives an empty enumeration.
    pub fn over(mask: u32, count: u32) -> (space: Self)
        requires
            count <= 32,
        ensures
            space.mask() == mask,
            space.count() == count,
    {
        Permutations { mask: mask, count: count }
    }

    /// A new cursor at the start of the enumeration. It yields every word
    /// within the mask that has `count` ones, in increasing order: as many
    /// words as there are ways to pick `count` of the mask's bits, and none
    /// where the mask has fewer ones than that.
    pub fn iter(&self) -> (it: PermIter)
        ensures
            self.count() <= 32,
            it@ == choices(self.mask(), self.count()),
            it@.len() == binomial(popcount(self.mask()), self.count()),
            self.count() > popcount(self.mask()) ==> it@.len() == 0,
            self.count() <= popcount(self.mask()) ==> it@.len() > 0 && it@[0] == low_bits(
                self.mask(),
                self.count(),
            ),
    {
        proof {
            use_type_invariant(self);
            lemma_choices_len(self.mask, self.count as nat);
        }
        if count_ones(self.mask) < self.count {
            proof {
                lemma_choices_none(self.mask, self.count as nat);
            }
            PermIter { bases: [0u32; 33], ones: u32::MAX, next: None }
        } else {
            let bases: [u32; 33] = create_bases(self.mask);
            proof {
                lemma_popcount_range(self.mask);
                lemma_choices_first(self.mask, self.count as nat);
                lemma_low_bits_choice(self.mask, self.count as nat);
            }
            let start: u32 = bases[self.count as usize];
            PermIter { bases: bases, ones: self.count, next: Some(start) }
        }
    }

    /// A new cursor at the start of the enumeration, from the space by value.
    pub fn into_iter(self) -> (it: PermIter)
        ensures
            self.count() <= 32,
            it@ == choices(self.mask(), self.count()),
            it@.len() == binomial(popcount(self.mask()), self.count()),
    {
        self.iter()
    }
}

} // verus!
