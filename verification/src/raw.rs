//! The table of smallest subsets of a mask, and the step from one subset of
//! the mask to the next one with as many bits.

use vstd::prelude::*;
use crate::bits::{
    popcount, within, dec, inc, lowest_bit, clear_lowest, low_bits, is_low_run,
    lemma_popcount_disjoint, lemma_popcount_range, lemma_popcount_within, lemma_popcount_single,
    lemma_low_bits_run, lemma_low_bits_choice, lemma_low_bits_saturate, lemma_low_bits_least,
    lemma_high_bits_greatest, lemma_low_bits_step,
};

verus! {

/// `v` is one of the words that are enumerated for `mask` and `k`: it lies
/// within `mask` and has exactly `k` ones.
pub open spec fn is_choice(mask: u32, k: nat, v: u32) -> bool {
    within(v, mask) && popcount(v) == k
}

/// `bases` is the table of `mask`: entry `j` is the OR of the `j` lowest set
/// bits of `mask`, and from `popcount(mask)` on every entry is `mask` itself.
pub open spec fn is_table_of(bases: Seq<u32>, mask: u32) -> bool {
    &&& bases.len() == 33
    &&& bases[32] == mask
    &&& forall|j: int| 0 <= j <= 32 ==> bases[j] == low_bits(mask, j as nat)
}

/// What holds of every table: it starts at zero, stays within the mask,
/// each entry lies within the next, entry `j` has `j` ones as long as the
/// mask has that many, and from there on every entry is the mask itself.
pub proof fn lemma_table_shape(bases: Seq<u32>, mask: u32)
    requires
        is_table_of(bases, mask),
    ensures
        bases[0] == 0,
        forall|j: int| 0 <= j <= 32 ==> within(#[trigger] bases[j], mask),
        forall|j: int| 0 <= j < 32 ==> within(#[trigger] bases[j], bases[j + 1]),
        forall|j: int| 0 <= j <= popcount(mask) ==> popcount(#[trigger] bases[j]) == j,
        forall|j: int| popcount(mask) <= j <= 32 ==> #[trigger] bases[j] == mask,
{
    lemma_popcount_range(mask);
    assert(mask & !mask == 0) by (bit_vector);
    assert forall|j: int| 0 <= j <= 32 implies within(#[trigger] bases[j], mask) && (j
        <= popcount(mask) ==> popcount(bases[j]) == j) && (popcount(mask) <= j ==> bases[j]
        == mask) by {
        if j <= popcount(mask) {
            lemma_low_bits_choice(mask, j as nat);
        }
        if popcount(mask) <= j {
            lemma_low_bits_saturate(mask, j as nat);
        }
    }
    assert forall|j: int| 0 <= j < 32 implies within(#[trigger] bases[j], bases[j + 1]) by {
        lemma_low_bits_step(mask, j as nat);
        let x: u32 = bases[j];
        let y: u32 = lowest_bit(mask & !x);
        assert(x & !(x | y) == 0) by (bit_vector);
    }
}

/// `u32::count_ones`: the result is the number of ones in the binary
/// representation of `v`. Believed of std, not proved.
#[verifier::external_body]
pub(crate) fn count_ones(v: u32) -> (r: u32)
    ensures
        r == popcount(v),
{
    v.count_ones()
}

/// Fills `bases_into` with the table of `mask`: entry `j` becomes the OR of
/// the `j` lowest set bits of `mask`. Whatever the array held before is
/// overwritten.
pub fn make_bases(mask: u32, bases_into: &mut [u32; 33])
    ensures
        is_table_of(final(bases_into)@, mask),
        final(bases_into)@[popcount(mask) as int] == mask,
        forall|j: int| 0 <= j <= 32 ==> within(#[trigger] final(bases_into)@[j], mask),
        forall|j: int|
            0 <= j < 32 ==> within(#[trigger] final(bases_into)@[j], final(bases_into)@[j + 1]),
{
    let mut rem_mask: u32 = mask;
    let mut acc_mask: u32 = 0;
    let mut i: usize = 0;
    proof {
        assert(mask & !0u32 == mask) by (bit_vector);
    }
    while i < 32
        invariant
            i <= 32,
            acc_mask == low_bits(mask, i as nat),
            rem_mask == mask & !acc_mask,
            forall|j: int| 0 <= j < i ==> bases_into@[j] == low_bits(mask, j as nat),
        decreases 32 - i,
    {
        bases_into[i] = acc_mask;
        let lowest_bit: u32 = rem_mask & 0u32.wrapping_sub(rem_mask);
        proof {
            let neg: u32 = vstd::wrapping::u32_specs::wrapping_sub(0u32, rem_mask);
            assert(neg == if rem_mask == 0 { 0u32 } else { (0x1_0000_0000 - rem_mask) as u32 });
            let next: u32 = acc_mask | lowest_bit;
            assert(lowest_bit == self::lowest_bit(rem_mask) && mask & !next == rem_mask
                & !lowest_bit) by (bit_vector)
                requires
                    neg == if rem_mask == 0 { 0u32 } else { (0x1_0000_0000 - rem_mask) as u32 },
                    lowest_bit == rem_mask & neg,
                    rem_mask == mask & !acc_mask,
                    next == acc_mask | lowest_bit,
            ;
            lemma_low_bits_step(mask, i as nat);
        }
        rem_mask &= !lowest_bit;
        acc_mask |= lowest_bit;
        i += 1;
    }
    bases_into[32] = acc_mask;
    proof {
        lemma_popcount_range(mask);
        lemma_low_bits_saturate(mask, 32);
        lemma_table_shape(bases_into@, mask);
    }
}

/// Returns the table of `mask`.
pub fn create_bases(mask: u32) -> (bases: [u32; 33])
    ensures
        is_table_of(bases@, mask),
        bases@[popcount(mask) as int] == mask,
        forall|j: int| 0 <= j <= 32 ==> within(#[trigger] bases@[j], mask),
        forall|j: int| 0 <= j < 32 ==> within(#[trigger] bases@[j], bases@[j + 1]),
{
    let mut bases: [u32; 33] = [0u32; 33];
    make_bases(mask, &mut bases);
    bases
}

/// The step from a nonzero word `cur` of `k` ones within `mask`, where the
/// carry out of its lowest run stops at a bit of the mask: `upper`, the bits
/// that stay and the bit that moves up, holds no more than `k` ones; filled up
/// with the lowest bits of `mask` it is a word of `k` ones within `mask`
/// again, greater than `cur` and no greater than any such word `v` above `cur`.
proof fn lemma_advance_step(mask: u32, k: nat, cur: u32, upper: u32, v: u32)
    requires
        cur != 0,
        is_choice(mask, k, cur),
        upper == inc(cur | dec(cur) | !mask) & mask,
        inc(cur | dec(cur) | !mask) != 0,
    ensures
        popcount(upper) <= k,
        is_choice(mask, k, upper | low_bits(mask, (k - popcount(upper)) as nat)),
        upper | low_bits(mask, (k - popcount(upper)) as nat) > cur,
        is_choice(mask, k, v) && v > cur ==> upper | low_bits(
            mask,
            (k - popcount(upper)) as nat,
        ) <= v,
{
    let raw: u32 = inc(cur | dec(cur) | !mask);
    let p: u32 = lowest_bit(raw);
    let q: u32 = dec(p);
    let a: u32 = !(p | q);
    let need: nat = (k - popcount(upper)) as nat;
    let low: u32 = low_bits(mask, need);
    let l: u32 = lowest_bit(cur);
    let ca: u32 = cur & a;
    let cq: u32 = cur & q;
    let mq: u32 = mask & q;
    assert(upper == ca | p && upper & !mask == 0 && cq & !mq == 0 && ca & p == 0 && p != 0
        && clear_lowest(p) == 0 && cq != 0 && cq == mq & !dec(l) && l != 0 && clear_lowest(l)
        == 0 && ca & cq == 0 && ca | cq == cur && is_low_run(q) && mq & !mask == 0)
        by (bit_vector)
        requires
            cur != 0,
            cur & !mask == 0,
            raw == inc(cur | dec(cur) | !mask),
            raw != 0,
            upper == raw & mask,
            p == lowest_bit(raw),
            q == dec(p),
            a == !(p | q),
            l == lowest_bit(cur),
            ca == cur & a,
            cq == cur & q,
            mq == mask & q,
    ;
    lemma_popcount_single(p);
    lemma_popcount_disjoint(ca, p);
    lemma_popcount_disjoint(ca, cq);
    lemma_popcount_range(cq);
    assert(need == popcount(cq) - 1);
    lemma_popcount_within(cq, mq);
    lemma_popcount_within(mq, mask);
    let b: u32 = lemma_low_bits_run(mask, need);
    assert((b & !q == 0) || (mask & q) & !(mask & b) == 0) by (bit_vector)
        requires
            is_low_run(b),
            is_low_run(q),
    ;
    if b & !q != 0 {
        lemma_popcount_within(mq, mask & b);
    }
    let next: u32 = upper | low;
    assert(low & !q == 0 && next <= (ca | p | q) && next > cur && upper & low == 0 && next
        & !mask == 0) by (bit_vector)
        requires
            low == mask & b,
            b & !q == 0,
            q == dec(p),
            p != 0,
            clear_lowest(p) == 0,
            a == !(p | q),
            ca == cur & a,
            cq == cur & q,
            ca | cq == cur,
            upper == ca | p,
            upper & !mask == 0,
            next == upper | low,
    ;
    lemma_popcount_disjoint(upper, low);
    if is_choice(mask, k, v) && v > cur {
        let va: u32 = v & a;
        let vq: u32 = v & q;
        let vp: u32 = v & p;
        assert(va & (vp | vq) == 0 && vp & vq == 0 && va | (vp | vq) == v && (va | vp) | vq
            == v && (vp == 0 || vp == p) && vq & !mq == 0 && vq & !mask == 0 && (va != ca ==> v
            > (ca | p | q)) && (va == ca && vp == 0 && vq <= cq ==> v <= cur)) by (bit_vector)
            requires
                v & !mask == 0,
                v > cur,
                p != 0,
                clear_lowest(p) == 0,
                q == dec(p),
                a == !(p | q),
                ca == cur & a,
                cq == cur & q,
                ca | cq == cur,
                mq == mask & q,
                va == v & a,
                vq == v & q,
                vp == v & p,
        ;
        lemma_popcount_disjoint(vp, vq);
        lemma_popcount_disjoint(va, vp | vq);
        if va != ca {
        } else if vp == 0 {
            assert(0u32 | vq == vq) by (bit_vector);
            lemma_high_bits_greatest(mq, l, vq);
        } else {
            lemma_popcount_single(vp);
            lemma_low_bits_least(mask, need, vq);
            assert((ca | p | low) <= (ca | p | vq)) by (bit_vector)
                requires
                    low <= vq,
                    low & !q == 0,
                    vq == v & q,
                    q == dec(p),
                    p != 0,
                    clear_lowest(p) == 0,
                    a == !(p | q),
                    ca == cur & a,
            ;
        }
    }
}

/// Computes the least word within the table's mask that has `ones` bits set
/// and is greater than `last_perm`; where `last_perm` is the greatest such
/// word, the least of them all. The mask is the table's last entry.
pub fn advance(bases: &[u32; 33], ones: u32, last_perm: u32) -> (next: u32)
    requires
        is_table_of(bases@, bases@[32]),
        is_choice(bases@[32], ones as nat, last_perm),
    ensures
        is_choice(bases@[32], ones as nat, next),
        (exists|v: u32| is_choice(bases@[32], ones as nat, v) && v > last_perm) ==> next
            > last_perm,
        next > last_perm ==> forall|v: u32|
            is_choice(bases@[32], ones as nat, v) && v > last_perm ==> next <= v,
        next <= last_perm ==> next == low_bits(bases@[32], ones as nat) && forall|v: u32|
            is_choice(bases@[32], ones as nat, v) ==> next <= v <= last_perm,
{
    let mask: u32 = bases[32];
    let t: u32 = last_perm | last_perm.wrapping_sub(1) | !mask;
    let raw: u32 = t.wrapping_add(1);
    let next_upper: u32 = raw & mask;
    let upper_ones: u32 = count_ones(next_upper);
    let ghost k: nat = ones as nat;
    let ghost l: u32 = lowest_bit(last_perm);
    proof {
        assert(last_perm.wrapping_sub(1) == dec(last_perm));
        assert(raw == inc(t));
        lemma_popcount_range(last_perm);
        lemma_popcount_within(last_perm, mask);
        lemma_low_bits_choice(mask, k);
        lemma_low_bits_least(mask, k, last_perm);
        assert(raw == 0 ==> next_upper == 0 && (last_perm != 0 ==> l != 0 && clear_lowest(l)
            == 0 && last_perm == mask & !dec(l))) by (bit_vector)
            requires
                last_perm & !mask == 0,
                t == last_perm | dec(last_perm) | !mask,
                raw == inc(t),
                next_upper == raw & mask,
                l == lowest_bit(last_perm),
        ;
        assert(last_perm == 0 ==> raw == 0) by (bit_vector)
            requires
                t == last_perm | dec(last_perm) | !mask,
                raw == inc(t),
        ;
        if raw != 0 {
            lemma_advance_step(mask, k, last_perm, next_upper, last_perm);
        }
    }
    let need_ones: u32 = ones - upper_ones;
    let next_lower: u32 = bases[need_ones as usize];
    let next: u32 = next_upper | next_lower;
    proof {
        if raw == 0 {
            assert(0u32 | next_lower == next_lower) by (bit_vector);
            assert forall|v: u32| is_choice(mask, k, v) implies next <= v <= last_perm by {
                lemma_low_bits_least(mask, k, v);
                if last_perm == 0 {
                    lemma_popcount_range(v);
                } else {
                    lemma_high_bits_greatest(mask, l, v);
                }
            }
        } else {
            assert forall|v: u32| is_choice(mask, k, v) && v > last_perm implies next <= v by {
                lemma_advance_step(mask, k, last_perm, next_upper, v);
            }
        }
    }
    next
}

} // verus!
