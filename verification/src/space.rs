//! The words enumerated for a mask and a bit count, as a sequence in
//! increasing order, and what holds of that sequence.

use vstd::prelude::*;
use crate::bits::{
    popcount, low_bits, lemma_popcount_within, lemma_low_bits_choice, lemma_low_bits_least,
};
use crate::raw::is_choice;

verus! {

/// The words within `mask` with exactly `k` ones that are at least `lo`, in
/// increasing order.
pub open spec fn choices_from(mask: u32, k: nat, lo: nat) -> Seq<u32>
    decreases 0x1_0000_0000 - lo,
{
    if lo > u32::MAX {
        Seq::empty()
    } else if is_choice(mask, k, lo as u32) {
        seq![lo as u32] + choices_from(mask, k, lo + 1)
    } else {
        choices_from(mask, k, lo + 1)
    }
}

/// All words within `mask` with exactly `k` ones, in increasing order.
pub open spec fn choices(mask: u32, k: nat) -> Seq<u32> {
    choices_from(mask, k, 0)
}

/// Where none of the words from `lo` up to `hi` is enumerated, the
/// enumeration from `lo` is the enumeration from `hi`.
pub proof fn lemma_choices_from_gap(mask: u32, k: nat, lo: nat, hi: nat)
    requires
        lo <= hi <= 0x1_0000_0000,
        forall|v: u32| lo <= v < hi ==> !is_choice(mask, k, v),
    ensures
        choices_from(mask, k, lo) == choices_from(mask, k, hi),
    decreases hi - lo,
{
    if lo < hi {
        assert(!is_choice(mask, k, lo as u32));
        lemma_choices_from_gap(mask, k, lo + 1, hi);
    }
}

/// Every word of the enumeration from `lo` is at least `lo`, lies within
/// `mask` and has `k` ones; and each is less than the one after it.
pub proof fn lemma_choices_from_sound(mask: u32, k: nat, lo: nat)
    ensures
        forall|i: int|
            0 <= i < choices_from(mask, k, lo).len() ==> lo <= #[trigger] choices_from(
                mask,
                k,
                lo,
            )[i] && is_choice(mask, k, choices_from(mask, k, lo)[i]),
        forall|i: int, j: int|
            0 <= i < j < choices_from(mask, k, lo).len() ==> choices_from(mask, k, lo)[i]
                < choices_from(mask, k, lo)[j],
    decreases 0x1_0000_0000 - lo,
{
    if lo <= u32::MAX {
        lemma_choices_from_sound(mask, k, lo + 1);
        let rest = choices_from(mask, k, lo + 1);
        let all = choices_from(mask, k, lo);
        if is_choice(mask, k, lo as u32) {
            assert forall|i: int| 0 <= i < all.len() implies lo <= #[trigger] all[i] && is_choice(
                mask,
                k,
                all[i],
            ) by {
                if i > 0 {
                    assert(all[i] == rest[i - 1]);
                }
            }
            assert forall|i: int, j: int| 0 <= i < j < all.len() implies all[i] < all[j] by {
                assert(all[j] == rest[j - 1]);
                if i > 0 {
                    assert(all[i] == rest[i - 1]);
                }
            }
        }
    }
}

/// Every word that is at least `lo`, lies within `mask` and has `k` ones is
/// in the enumeration from `lo`.
pub proof fn lemma_choices_from_complete(mask: u32, k: nat, lo: nat, v: u32)
    requires
        lo <= v,
        is_choice(mask, k, v),
    ensures
        choices_from(mask, k, lo).contains(v),
    decreases v - lo,
{
    let all = choices_from(mask, k, lo);
    if lo == v {
        assert(all[0] == v);
    } else {
        lemma_choices_from_complete(mask, k, lo + 1, v);
        let rest = choices_from(mask, k, lo + 1);
        let i: int = choose|i: int| 0 <= i < rest.len() && rest[i] == v;
        if is_choice(mask, k, lo as u32) {
            assert(all[i + 1] == v);
        }
    }
}

/// Every enumerated word sets only bits of the mask.
pub proof fn lemma_choices_within_mask(mask: u32, k: nat)
    ensures
        forall|i: int|
            0 <= i < choices(mask, k).len() ==> #[trigger] choices(mask, k)[i] & !mask == 0,
{
    lemma_choices_from_sound(mask, k, 0);
}

/// Every enumerated word has exactly `k` ones.
pub proof fn lemma_choices_popcount(mask: u32, k: nat)
    ensures
        forall|i: int|
            0 <= i < choices(mask, k).len() ==> popcount(#[trigger] choices(mask, k)[i]) == k,
{
    lemma_choices_from_sound(mask, k, 0);
}

/// The enumeration is strictly increasing: each word is less than the one
/// after it, and so than every later one.
pub proof fn lemma_choices_increasing(mask: u32, k: nat)
    ensures
        forall|i: int|
            0 <= i && i + 1 < choices(mask, k).len() ==> #[trigger] choices(mask, k)[i] < choices(
                mask,
                k,
            )[i + 1],
        forall|i: int, j: int|
            0 <= i < j < choices(mask, k).len() ==> choices(mask, k)[i] < choices(mask, k)[j],
{
    lemma_choices_from_sound(mask, k, 0);
}

/// The enumeration holds exactly the words within the mask that have `k`
/// ones: every one of them, no other word, and none twice.
pub proof fn lemma_choices_exact(mask: u32, k: nat)
    ensures
        forall|v: u32| choices(mask, k).contains(v) <==> v & !mask == 0 && popcount(v) == k,
        choices(mask, k).no_duplicates(),
{
    lemma_choices_from_sound(mask, k, 0);
    assert forall|v: u32| v & !mask == 0 && popcount(v) == k implies choices(mask, k).contains(
        v,
    ) by {
        lemma_choices_from_complete(mask, k, 0, v);
    }
}

/// Where the mask has fewer than `k` ones, nothing is enumerated.
pub proof fn lemma_choices_none(mask: u32, k: nat)
    requires
        k > popcount(mask),
    ensures
        choices(mask, k).len() == 0,
        choices(mask, k) == Seq::<u32>::empty(),
{
    assert forall|v: u32| 0 <= v < 0x1_0000_0000 implies !is_choice(mask, k, v) by {
        if is_choice(mask, k, v) {
            lemma_popcount_within(v, mask);
        }
    }
    lemma_choices_from_gap(mask, k, 0, 0x1_0000_0000);
}

/// Where the mask has at least `k` ones, the enumeration starts with the `k`
/// lowest set bits of the mask.
pub proof fn lemma_choices_first(mask: u32, k: nat)
    requires
        k <= popcount(mask),
    ensures
        choices(mask, k).len() > 0,
        choices(mask, k)[0] == low_bits(mask, k),
        choices(mask, k) == choices_from(mask, k, low_bits(mask, k) as nat),
{
    let start: u32 = low_bits(mask, k);
    lemma_low_bits_choice(mask, k);
    assert forall|v: u32| 0 <= v < start implies !is_choice(mask, k, v) by {
        if is_choice(mask, k, v) {
            lemma_low_bits_least(mask, k, v);
        }
    }
    lemma_choices_from_gap(mask, k, 0, start as nat);
}

} // verus!
