//! One interface for the implementations of Montgomery multiplication.
//!
//! The multiplication exists twice: in a portable form that works in 64-bit
//! words, and in a form that accumulates in 128-bit words. Both meet the one
//! contract stated here, so that either can stand in for the other, and a
//! test written against the interface exercises both.

use crate::arith::{fe_mont_mul, mont_mul_384_rust, W6x64};
use crate::field::{canonical, mont_product};
use vstd::prelude::*;

verus! {

/// An implementation of Montgomery multiplication modulo the field prime.
pub trait MontgomeryBackend {
    /// `result = a · b · R⁻¹ mod N` for canonical `a` and `b`.
    fn mont_mul(result: &mut W6x64, a: &W6x64, b: &W6x64)
        ensures
            canonical(a@) && canonical(b@) ==> final(result)@ == mont_product(a@, b@) && canonical(
                final(result)@,
            ),
    ;
}

/// The implementation in 64-bit words, [`mont_mul_384_rust`].
pub struct Portable;

/// The implementation that accumulates in 128-bit words, [`fe_mont_mul`].
pub struct Wide;

impl MontgomeryBackend for Portable {
    fn mont_mul(result: &mut W6x64, a: &W6x64, b: &W6x64) {
        mont_mul_384_rust(result, a, b);
    }
}

impl MontgomeryBackend for Wide {
    fn mont_mul(result: &mut W6x64, a: &W6x64, b: &W6x64) {
        fe_mont_mul(result, a, b);
    }
}

} // verus!
