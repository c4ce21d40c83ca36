//! How many words an enumeration holds.

use vstd::prelude::*;
use vstd::relations::injective_on;
use vstd::set_lib::{lemma_map_size, lemma_set_disjoint_lens};
use crate::bits::{
    popcount, within, lowest_bit, clear_lowest, lemma_popcount_clear_lowest,
    lemma_popcount_disjoint, lemma_popcount_range, lemma_popcount_single,
};
use crate::raw::is_choice;
use crate::space::{choices, lemma_choices_from_sound, lemma_choices_from_complete};

verus! {

/// The number of ways to pick `k` things out of `n`.
pub open spec fn binomial(n: nat, k: nat) -> nat
    decreases n,
{
    if k == 0 {
        1
    } else if n == 0 {
        0
    } else {
        binomial((n - 1) as nat, (k - 1) as nat) + binomial((n - 1) as nat, k)
    }
}

/// The set of the words within `mask` that have exactly `k` ones.
pub open spec fn choice_set(mask: u32, k: nat) -> Set<u32> {
    Set::new(|v: u32| is_choice(mask, k, v))
}

/// A word within a mask without its lowest set bit lies within the mask,
/// with that bit added too, and has one more bit with it.
proof fn lemma_with_lowest(mask: u32, w: u32)
    requires
        mask != 0,
        within(w, clear_lowest(mask)),
    ensures
        within(w, mask),
        within(w | lowest_bit(mask), mask),
        w & lowest_bit(mask) == 0,
        (w | lowest_bit(mask)) & lowest_bit(mask) != 0,
        popcount(w | lowest_bit(mask)) == popcount(w) + 1,
{
    let l: u32 = lowest_bit(mask);
    let rest: u32 = clear_lowest(mask);
    assert(w & l == 0 && (w | l) & !mask == 0 && (w | l) & l != 0 && w & !mask == 0 && l != 0
        && clear_lowest(l) == 0) by (bit_vector)
        requires
            mask != 0,
            l == lowest_bit(mask),
            rest == clear_lowest(mask),
            w & !rest == 0,
    ;
    lemma_popcount_single(l);
    lemma_popcount_disjoint(w, l);
}

/// There are as many words of `k` ones within a mask as there are ways to
/// pick `k` of the mask's bits.
pub proof fn lemma_choice_set_size(mask: u32, k: nat)
    ensures
        choice_set(mask, k).finite(),
        choice_set(mask, k).len() == binomial(popcount(mask), k),
    decreases mask,
{
    let all = choice_set(mask, k);
    lemma_popcount_range(mask);
    if k == 0 {
        assert(0u32 & !mask == 0) by (bit_vector);
        assert forall|v: u32| all.contains(v) <==> v == 0 by {
            lemma_popcount_range(v);
        }
        assert(all =~= set![0u32]);
    } else if mask == 0 {
        assert forall|v: u32| !all.contains(v) by {
            assert(v & !0u32 == 0 ==> v == 0) by (bit_vector);
        }
        assert(all =~= Set::<u32>::empty());
    } else {
        let l: u32 = lowest_bit(mask);
        let rest: u32 = clear_lowest(mask);
        let without = choice_set(rest, k);
        let smaller = choice_set(rest, (k - 1) as nat);
        let with_l = |w: u32| w | l;
        let with = smaller.map(with_l);
        lemma_popcount_clear_lowest(mask);
        lemma_choice_set_size(rest, k);
        lemma_choice_set_size(rest, (k - 1) as nat);
        assert forall|x1: u32, x2: u32|
            smaller.contains(x1) && smaller.contains(x2) && #[trigger] with_l(x1)
                == #[trigger] with_l(x2) implies x1 == x2 by {
            lemma_with_lowest(mask, x1);
            lemma_with_lowest(mask, x2);
            assert(x1 & l == 0 && x2 & l == 0 && x1 | l == x2 | l ==> x1 == x2) by (bit_vector);
        }
        assert(injective_on(with_l, smaller));
        lemma_map_size(smaller, with, with_l);
        assert forall|v: u32| all.contains(v) <==> without.contains(v) || with.contains(v) by {
            let w: u32 = v & !l;
            assert(v & !mask == 0 ==> (v & l == 0 ==> v & !rest == 0) && (v & l != 0 ==> w
                & !rest == 0 && w | l == v)) by (bit_vector)
                requires
                    mask != 0,
                    l == lowest_bit(mask),
                    rest == clear_lowest(mask),
                    w == v & !l,
            ;
            if all.contains(v) && v & l != 0 {
                lemma_with_lowest(mask, w);
                assert(smaller.contains(w) && v == with_l(w));
            }
            if without.contains(v) {
                lemma_with_lowest(mask, v);
            }
            if with.contains(v) {
                let x: u32 = choose|x: u32| smaller.contains(x) && v == with_l(x);
                lemma_with_lowest(mask, x);
            }
        }
        assert(all =~= without + with);
        assert forall|v: u32| without.contains(v) implies !with.contains(v) by {
            lemma_with_lowest(mask, v);
            if with.contains(v) {
                let x: u32 = choose|x: u32| smaller.contains(x) && v == with_l(x);
                lemma_with_lowest(mask, x);
            }
        }
        assert(without.disjoint(with));
        lemma_set_disjoint_lens(without, with);
    }
}

/// The enumeration for a mask and `k` holds as many words as there are ways
/// to pick `k` of the mask's bits.
pub proof fn lemma_choices_len(mask: u32, k: nat)
    ensures
        choices(mask, k).len() == binomial(popcount(mask), k),
{
    let s = choices(mask, k);
    lemma_choices_from_sound(mask, k, 0);
    lemma_choice_set_size(mask, k);
    assert forall|v: u32| s.to_set().contains(v) <==> choice_set(mask, k).contains(v) by {
        if is_choice(mask, k, v) {
            lemma_choices_from_complete(mask, k, 0, v);
        }
    }
    assert(s.to_set() =~= choice_set(mask, k));
    s.unique_seq_to_set();
}

} // verus!
