//! Words as sets of bit positions: population count, containment in a mask,
//! and the smallest subsets of a mask.

use vstd::prelude::*;
use vstd::arithmetic::power2::{pow2, lemma_pow2_unfold, lemma2_to64};

verus! {

/// The number of ones in the binary representation of `v`.
pub open spec fn popcount(v: u32) -> nat
    decreases v,
{
    if v == 0 {
        0
    } else {
        (v % 2) as nat + popcount(v / 2)
    }
}

/// `v` sets no bit position that `mask` leaves clear.
pub open spec fn within(v: u32, mask: u32) -> bool {
    v & !mask == 0
}

/// `w - 1` on 32 bits, wrapping at zero.
pub open spec fn dec(w: u32) -> u32 {
    if w == 0 {
        0xFFFF_FFFFu32
    } else {
        (w - 1) as u32
    }
}

/// `w + 1` on 32 bits, wrapping at the top.
pub open spec fn inc(w: u32) -> u32 {
    if w == 0xFFFF_FFFFu32 {
        0u32
    } else {
        (w + 1) as u32
    }
}

/// The lowest set bit of `w` as a word of its own; zero where `w` is zero.
pub open spec fn lowest_bit(w: u32) -> u32 {
    w & !dec(w)
}

/// `w` without its lowest set bit.
pub open spec fn clear_lowest(w: u32) -> u32 {
    w & dec(w)
}

/// The bitwise OR of the `j` lowest set bits of `mask`; all of `mask` where
/// it has no more than `j` bits.
pub open spec fn low_bits(mask: u32, j: nat) -> u32
    decreases j,
{
    if j == 0 || mask == 0 {
        0
    } else {
        lowest_bit(mask) | low_bits(clear_lowest(mask), (j - 1) as nat)
    }
}

/// `b` is one less than a power of two: a run of ones from bit 0 upwards.
pub open spec fn is_low_run(b: u32) -> bool {
    b & inc(b) == 0
}

/// Clearing the lowest set bit takes one from the population count.
pub proof fn lemma_popcount_clear_lowest(v: u32)
    requires
        v != 0,
    ensures
        popcount(v) == 1 + popcount(clear_lowest(v)),
        clear_lowest(v) < v,
    decreases v,
{
    let h: u32 = v / 2;
    let c: u32 = clear_lowest(v);
    assert(c < v && (v % 2 == 1 ==> c % 2 == 0 && c / 2 == v / 2)
        && (v % 2 == 0 ==> v / 2 != 0 && c % 2 == 0 && c / 2 == clear_lowest(v / 2)))
        by (bit_vector)
        requires v != 0, c == clear_lowest(v);
    if v % 2 == 0 {
        lemma_popcount_clear_lowest(h);
    }
}

/// The population counts of two words with no bit in common add up.
pub proof fn lemma_popcount_disjoint(a: u32, b: u32)
    requires
        a & b == 0,
    ensures
        popcount(a | b) == popcount(a) + popcount(b),
    decreases a + b,
{
    let u: u32 = a | b;
    assert((u == 0 <==> (a == 0 && b == 0)) && u % 2 == a % 2 + b % 2 && u / 2 == (a / 2) | (b
        / 2) && (a / 2) & (b / 2) == 0) by (bit_vector)
        requires
            a & b == 0,
            u == a | b,
    ;
    if u != 0 {
        lemma_popcount_disjoint(a / 2, b / 2);
    }
}

proof fn lemma_popcount_below(v: u32, n: nat)
    requires
        v < pow2(n),
    ensures
        popcount(v) <= n,
    decreases n,
{
    if v != 0 {
        if n == 0 {
            lemma2_to64();
        } else {
            lemma_pow2_unfold(n);
            lemma_popcount_below(v / 2, (n - 1) as nat);
        }
    }
}

/// A word has at most 32 ones, and none only where it is zero.
pub proof fn lemma_popcount_range(v: u32)
    ensures
        popcount(v) <= 32,
        popcount(v) == 0 <==> v == 0,
{
    lemma2_to64();
    lemma_popcount_below(v, 32);
    if v != 0 {
        lemma_popcount_clear_lowest(v);
    }
}

/// A word within another has no more ones, and fewer unless the two are equal.
pub proof fn lemma_popcount_within(a: u32, b: u32)
    requires
        within(a, b),
    ensures
        popcount(a) <= popcount(b),
        popcount(a) == popcount(b) ==> a == b,
{
    let d: u32 = b & !a;
    assert(a & d == 0 && a | d == b && (d == 0 ==> a == b)) by (bit_vector)
        requires
            a & !b == 0,
            d == b & !a,
    ;
    lemma_popcount_disjoint(a, d);
    lemma_popcount_range(d);
}

/// A word with a single bit set has population count 1.
pub proof fn lemma_popcount_single(l: u32)
    requires
        l != 0,
        clear_lowest(l) == 0,
    ensures
        popcount(l) == 1,
{
    lemma_popcount_clear_lowest(l);
}

/// The `k` lowest set bits of a mask are what a run of low ones cuts out of it.
pub proof fn lemma_low_bits_run(mask: u32, k: nat) -> (b: u32)
    requires
        k <= popcount(mask),
    ensures
        is_low_run(b),
        low_bits(mask, k) == mask & b,
        popcount(mask & b) == k,
    decreases k,
{
    if k == 0 {
        assert(is_low_run(0u32) && mask & 0u32 == 0u32) by (bit_vector);
        0u32
    } else {
        lemma_popcount_range(mask);
        lemma_popcount_clear_lowest(mask);
        let l: u32 = lowest_bit(mask);
        let rest: u32 = clear_lowest(mask);
        let b1: u32 = lemma_low_bits_run(rest, (k - 1) as nat);
        let b: u32 = b1 | l | dec(l);
        assert(is_low_run(b) && mask & b == l | (rest & b1) && l & (rest & b1) == 0 && l != 0
            && clear_lowest(l) == 0) by (bit_vector)
            requires
                mask != 0,
                is_low_run(b1),
                l == lowest_bit(mask),
                rest == clear_lowest(mask),
                b == b1 | l | dec(l),
        ;
        lemma_popcount_single(l);
        lemma_popcount_disjoint(l, rest & b1);
        b
    }
}

/// The `k` lowest set bits of a mask lie within it and are `k` in number,
/// where the mask has that many.
pub proof fn lemma_low_bits_choice(mask: u32, k: nat)
    requires
        k <= popcount(mask),
    ensures
        within(low_bits(mask, k), mask),
        popcount(low_bits(mask, k)) == k,
{
    let b: u32 = lemma_low_bits_run(mask, k);
    assert((mask & b) & !mask == 0) by (bit_vector);
}

/// Asking for as many bits as a mask has, or more, gives the whole mask.
pub proof fn lemma_low_bits_saturate(mask: u32, k: nat)
    requires
        popcount(mask) <= k,
    ensures
        low_bits(mask, k) == mask,
    decreases k,
{
    lemma_popcount_range(mask);
    if mask != 0 {
        lemma_popcount_clear_lowest(mask);
        lemma_low_bits_saturate(clear_lowest(mask), (k - 1) as nat);
        assert(lowest_bit(mask) | clear_lowest(mask) == mask) by (bit_vector);
    }
}

/// No word within `mask` with `k` ones is smaller than the `k` lowest set bits of `mask`.
pub proof fn lemma_low_bits_least(mask: u32, k: nat, v: u32)
    requires
        within(v, mask),
        popcount(v) == k,
    ensures
        low_bits(mask, k) <= v,
{
    lemma_popcount_within(v, mask);
    let b: u32 = lemma_low_bits_run(mask, k);
    let x: u32 = v & b;
    let y: u32 = v & !b;
    assert((x & !(mask & b)) == 0 && x & y == 0 && x | y == v && x <= v && (y != 0 ==> v > mask
        & b)) by (bit_vector)
        requires
            v & !mask == 0,
            is_low_run(b),
            x == v & b,
            y == v & !b,
    ;
    lemma_popcount_within(x, mask & b);
    lemma_popcount_disjoint(x, y);
    lemma_popcount_range(y);
}

/// No word within `mask` has as many ones as the bits of `mask` from the bit `l`
/// upwards and is greater than they are.
pub proof fn lemma_high_bits_greatest(mask: u32, l: u32, v: u32)
    requires
        l != 0,
        clear_lowest(l) == 0,
        within(v, mask),
        popcount(v) == popcount(mask & !dec(l)),
    ensures
        v <= mask & !dec(l),
{
    let top: u32 = mask & !dec(l);
    let x: u32 = v & !dec(l);
    let y: u32 = v & dec(l);
    assert(x & !top == 0 && x & y == 0 && x | y == v && (x != top ==> v < top)) by (bit_vector)
        requires
            l != 0,
            clear_lowest(l) == 0,
            v & !mask == 0,
            top == mask & !dec(l),
            x == v & !dec(l),
            y == v & dec(l),
    ;
    lemma_popcount_within(x, top);
    lemma_popcount_disjoint(x, y);
    lemma_popcount_range(y);
    if x == top {
        assert(x | 0u32 == x) by (bit_vector);
    }
}

/// The next lowest set bit of a mask is the lowest of those not yet taken.
pub proof fn lemma_low_bits_step(mask: u32, j: nat)
    ensures
        low_bits(mask, j + 1) == low_bits(mask, j) | lowest_bit(mask & !low_bits(mask, j)),
    decreases j,
{
    let l: u32 = lowest_bit(mask);
    let rest: u32 = clear_lowest(mask);
    if mask == 0 {
        assert(0u32 | lowest_bit(0u32 & !0u32) == 0u32) by (bit_vector);
    } else if j == 0 {
        assert(low_bits(rest, 0) == 0);
        assert(l | 0u32 == 0u32 | lowest_bit(mask & !0u32)) by (bit_vector)
            requires
                l == lowest_bit(mask),
        ;
    } else {
        lemma_low_bits_step(rest, (j - 1) as nat);
        let x: u32 = low_bits(rest, (j - 1) as nat);
        let n: u32 = lowest_bit(rest & !x);
        assert(mask & !(l | x) == rest & !x && l | (x | n) == (l | x) | n) by (bit_vector)
            requires
                l == lowest_bit(mask),
                rest == clear_lowest(mask),
        ;
    }
}

} // verus!
