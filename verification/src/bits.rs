//! Bit-level reasoning helpers for `u128` values.
//!
//! All template arithmetic in this crate is carried out in `u128`, wide
//! enough for the largest template.  The lemmas here relate the shift and
//! mask expressions that the operations use to the individual bits of their
//! operands, so that whole-template laws can be proved bit by bit.

use vstd::prelude::*;

verus! {

/// A `u128` with exactly the lowest `w` bits set.
pub open spec fn low_mask(w: u128) -> u128 {
    if w >= 128 {
        u128::MAX
    } else {
        ((1u128 << w) - 1) as u128
    }
}

/// Bit `i` of `v`, with bit 0 the least significant.
pub open spec fn nth_bit(v: u128, i: u128) -> bool {
    (v >> i) & 1 == 1
}

/// A value fits in `w` bits when masking to `w` bits does not change it.
pub open spec fn fits(v: u128, w: u128) -> bool {
    v & low_mask(w) == v
}

pub proof fn lemma_bit_or(a: u128, b: u128, i: u128)
    by (bit_vector)
    requires
        i < 128,
    ensures
        nth_bit(a | b, i) == (nth_bit(a, i) || nth_bit(b, i)),
{
}

pub proof fn lemma_bit_and(a: u128, b: u128, i: u128)
    by (bit_vector)
    requires
        i < 128,
    ensures
        nth_bit(a & b, i) == (nth_bit(a, i) && nth_bit(b, i)),
{
}

pub proof fn lemma_bit_shl(a: u128, s: u128, i: u128)
    by (bit_vector)
    requires
        s < 128,
        i < 128,
    ensures
        nth_bit(a << s, i) == (i >= s && nth_bit(a, (i - s) as u128)),
{
}

pub proof fn lemma_bit_shr(a: u128, s: u128, i: u128)
    by (bit_vector)
    requires
        s < 128,
        i < 128,
    ensures
        nth_bit(a >> s, i) == (i + s < 128 && nth_bit(a, (i + s) as u128)),
{
}

pub proof fn lemma_bit_mask(w: u128, i: u128)
    by (bit_vector)
    requires
        i < 128,
    ensures
        nth_bit(low_mask(w), i) == (i < w),
{
}

pub proof fn lemma_bit_zero(i: u128)
    by (bit_vector)
    requires
        i < 128,
    ensures
        !nth_bit(0, i),
{
}

/// A masked value fits in the mask's width.
pub proof fn lemma_mask_fits(v: u128, w: u128)
    by (bit_vector)
    ensures
        fits(v & low_mask(w), w),
        v & low_mask(w) <= v,
        v & low_mask(w) <= low_mask(w),
{
}

/// A value that fits in `w` bits has no bits at `w` or above.
pub proof fn lemma_fits_bit(v: u128, w: u128, i: u128)
    by (bit_vector)
    requires
        i < 128,
        i >= w,
        fits(v, w),
    ensures
        !nth_bit(v, i),
{
}

/// What fits in `w` bits fits in any width at least `w`.
pub proof fn lemma_fits_widen(v: u128, w: u128, w2: u128)
    by (bit_vector)
    requires
        fits(v, w),
        w <= w2,
    ensures
        fits(v, w2),
{
}

/// Zero is the identity of bitwise or.
pub proof fn lemma_or_zero(a: u128)
    by (bit_vector)
    ensures
        (a | 0) == a,
        (0 | a) == a,
{
}

/// A `u128` with exactly the lowest `w` bits set.
pub fn mask_bits(w: u8) -> (r: u128)
    ensures
        r == low_mask(w as u128),
{
    if w >= 128 {
        u128::MAX
    } else {
        proof {
            let ww = w as u128;
            assert(1u128 << ww >= 1) by (bit_vector)
                requires
                    ww < 128,
            ;
        }
        (1u128 << w) - 1
    }
}

proof fn lemma_bit_ext_step(a: u128, b: u128, n: u128)
    by (bit_vector)
    requires
        n < 128,
        a & low_mask(n) == b & low_mask(n),
        nth_bit(a, n) == nth_bit(b, n),
    ensures
        a & low_mask((n + 1) as u128) == b & low_mask((n + 1) as u128),
{
}

proof fn lemma_bit_ext_rec(a: u128, b: u128, n: u128)
    requires
        n <= 128,
        forall|i: u128| i < n ==> #[trigger] nth_bit(a, i) == nth_bit(b, i),
    ensures
        a & low_mask(n) == b & low_mask(n),
    decreases n,
{
    if n == 0 {
        assert(a & low_mask(0) == b & low_mask(0)) by (bit_vector);
    } else {
        lemma_bit_ext_rec(a, b, (n - 1) as u128);
        lemma_bit_ext_step(a, b, (n - 1) as u128);
    }
}

/// Two `u128` values that agree on every bit are equal.
pub proof fn lemma_bit_ext(a: u128, b: u128)
    requires
        forall|i: u128| i < 128 ==> #[trigger] nth_bit(a, i) == nth_bit(b, i),
    ensures
        a == b,
{
    lemma_bit_ext_rec(a, b, 128);
    assert(a & low_mask(128) == b & low_mask(128) ==> a == b) by (bit_vector);
}

} // verus!
