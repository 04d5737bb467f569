//! Single-limb building blocks: what the standard library's carrying
//! operations return, and the bit-level facts behind masks and 128-bit
//! products.

use vstd::prelude::*;

verus! {

/// `u64::overflowing_add` returns the sum reduced modulo `2^64`, and whether
/// the true sum did not fit in 64 bits.
pub assume_specification[ <u64>::overflowing_add ](x: u64, y: u64) -> (r: (u64, bool))
    ensures
        r.1 == (x + y > u64::MAX),
        r.0 as int == (if x + y > u64::MAX {
            x + y - 0x1_0000_0000_0000_0000
        } else {
            x + y
        }),
;

/// `u64::overflowing_sub` returns the difference reduced modulo `2^64`, and
/// whether the true difference was negative.
pub assume_specification[ <u64>::overflowing_sub ](x: u64, y: u64) -> (r: (u64, bool))
    ensures
        r.1 == (x < y),
        r.0 as int == (if x < y {
            x - y + 0x1_0000_0000_0000_0000
        } else {
            x - y
        }),
;

/// `u64::wrapping_neg` returns `-x` modulo `2^64`: zero for zero, and
/// `2^64 - x` otherwise.
pub assume_specification[ <u64>::wrapping_neg ](x: u64) -> (r: u64)
    ensures
        r as int == (if x == 0 {
            0
        } else {
            0x1_0000_0000_0000_0000 - x
        }),
;

/// `u64::from(bool)` is `0` for `false` and `1` for `true`.
pub assume_specification[ <u64 as std::convert::From<bool>>::from ](b: bool) -> (r: u64)
    ensures
        r == (if b {
            1u64
        } else {
            0u64
        }),
;

/// An all-zeros mask selects the second operand of a masked merge, an
/// all-ones mask the first, in either order of writing the merge.
pub proof fn lemma_mask_select(mask: u64, x: u64, y: u64)
    by (bit_vector)
    ensures
        mask == 0 ==> (mask & x) | (!mask & y) == y,
        mask == 0 ==> (!mask & y) | (mask & x) == y,
        mask == 0xffff_ffff_ffff_ffff ==> (mask & x) | (!mask & y) == x,
        mask == 0xffff_ffff_ffff_ffff ==> (!mask & y) | (mask & x) == x,
{
}

/// Masking with all zeros gives zero; masking with all ones changes nothing.
pub proof fn lemma_mask_and(mask: u64, x: u64)
    by (bit_vector)
    ensures
        mask == 0 ==> mask & x == 0,
        mask == 0xffff_ffff_ffff_ffff ==> mask & x == x,
{
}

/// Folding the exclusive-or of two words into an accumulator leaves the
/// accumulator zero exactly when it was zero and the two words are equal.
pub proof fn lemma_fold_difference(acc: u64, x: u64, y: u64)
    by (bit_vector)
    ensures
        (acc | (x ^ y)) == 0 <==> (acc == 0 && x == y),
{
}

/// The low and high halves of a 128-bit word are its remainder and quotient
/// by `2^64`.
pub proof fn lemma_wide_halves(h: u128)
    by (bit_vector)
    ensures
        (h as u64) == h % 0x1_0000_0000_0000_0000,
        (h >> 64) == h / 0x1_0000_0000_0000_0000,
        (h >> 64) <= 0xffff_ffff_ffff_ffff,
        ((h >> 64) as u64) == h >> 64,
{
}

/// A product of two limbs, with two more limbs added, fits in 128 bits.
pub proof fn lemma_mul_add_fits(x: u64, y: u64, t: u64, c: u64)
    by (nonlinear_arith)
    ensures
        x * y + t + c <= 0xffff_ffff_ffff_ffff_ffff_ffff_ffff_ffff,
        x * y <= 0xffff_ffff_ffff_fffe_0000_0000_0000_0001,
        x * y == y * x,
{
    assert(x * y <= 0xffff_ffff_ffff_ffff * 0xffff_ffff_ffff_ffff) by {
        assert(x * y <= 0xffff_ffff_ffff_ffff * y);
        assert(0xffff_ffff_ffff_ffff * y <= 0xffff_ffff_ffff_ffff * 0xffff_ffff_ffff_ffff);
    }
}

} // verus!
