//! The BLS12-381 base field as mathematics: the prime, the Montgomery radix
//! and the operations that the limb arithmetic implements.

use crate::limbs::lemma_radix_pow_values;
use crate::montgomery::mont_radix;
use vstd::arithmetic::div_mod::{
    lemma_fundamental_div_mod_converse, lemma_mul_mod_noop_general, lemma_small_mod,
};
use vstd::prelude::*;

verus! {

/// The BLS12-381 base-field prime `N`.
pub open spec fn modulus() -> nat {
    0x1a0111ea397fe69a4b1ba7b6434bacd764774b84f38512bf6730d2a0f6b0f6241eabfffeb153ffffb9feffffffffaaabnat
}

/// The inverse of the Montgomery radix modulo the prime:
/// `R · radix_inverse() ≡ 1 (mod N)`.
pub open spec fn radix_inverse() -> nat {
    0x14fec701e8fb0ce9ed5e64273c4f538b1797ab1458a88de9343ea97914956dc87fe11274d898fafbf4d38259380b4820nat
}

/// `R² mod N`, the Montgomery form of `R`.
pub open spec fn radix_squared() -> nat {
    0x11988fe592cae3aa9a793e85b519952d67eb88a9939d83c08de5476c4c95b6d50a76e6a609d104f1f4df1f341c341746nat
}

/// A canonical field element is a residue below the prime.
pub open spec fn canonical(x: nat) -> bool {
    x < modulus()
}

/// The sum of two residues.
pub open spec fn field_add(a: nat, b: nat) -> nat {
    (a + b) % modulus()
}

/// The difference of two residues.
pub open spec fn field_sub(a: nat, b: nat) -> nat {
    ((a as int - b as int) % (modulus() as int)) as nat
}

/// The product of two residues.
pub open spec fn field_mul(a: nat, b: nat) -> nat {
    (a * b) % modulus()
}

/// The Montgomery product `a · b · R⁻¹ mod N`.
pub open spec fn mont_product(a: nat, b: nat) -> nat {
    (a * b * radix_inverse()) % modulus()
}

/// The Montgomery form of a residue: `x · R mod N`.
pub open spec fn to_mont_form(x: nat) -> nat {
    (x * mont_radix()) % modulus()
}

/// The residue that a Montgomery form stands for: `x · R⁻¹ mod N`.
pub open spec fn from_mont_form(x: nat) -> nat {
    (x * radix_inverse()) % modulus()
}

/// Below twice the modulus, reducing is subtracting the modulus at most
/// once.
pub proof fn lemma_reduce_once(x: nat, n: nat)
    requires
        0 < n,
        x < 2 * n,
    ensures
        x % n == (if x < n {
            x
        } else {
            (x - n) as nat
        }),
{
    if x < n {
        lemma_small_mod(x, n);
    } else {
        lemma_fundamental_div_mod_converse(x as int, n as int, 1, x - n);
    }
}

/// The difference of two residues, reduced, is the difference itself or the
/// difference plus the modulus.
pub proof fn lemma_reduce_difference(a: nat, b: nat, n: nat)
    requires
        a < n,
        b < n,
    ensures
        (a - b) % (n as int) == (if a >= b {
            a - b
        } else {
            a - b + n
        }),
{
    if a >= b {
        lemma_small_mod((a - b) as nat, n);
    } else {
        lemma_fundamental_div_mod_converse(a - b, n as int, -1, a - b + n);
    }
}

/// The radix inverse is what its name says, and lies below the prime.
pub proof fn lemma_radix_inverse()
    ensures
        (mont_radix() * radix_inverse()) % modulus() == 1,
        radix_inverse() < modulus(),
        radix_squared() == (mont_radix() * mont_radix()) % modulus(),
        2 * modulus() < mont_radix(),
{
    lemma_radix_pow_values();
}

/// The Montgomery product is the only residue `r` below the prime with
/// `r · R ≡ a · b (mod N)`.
pub proof fn lemma_mont_product_unique(a: nat, b: nat, r: nat)
    requires
        r < modulus(),
        (r * mont_radix()) % modulus() == (a * b) % modulus(),
    ensures
        r == mont_product(a, b),
{
    let n = modulus() as int;
    let rr = mont_radix() as int;
    let ri = radix_inverse() as int;
    let x = (a * b) as int;
    let ir = r as int;
    lemma_radix_inverse();
    // a·b·R⁻¹ ≡ (r·R)·R⁻¹ = r·(R·R⁻¹) ≡ r
    lemma_mul_mod_noop_general(x, ri, n);
    lemma_mul_mod_noop_general(ir * rr, ri, n);
    assert((x * ri) % n == (ir * rr * ri) % n);
    assert(ir * rr * ri == ir * (rr * ri)) by (nonlinear_arith);
    lemma_mul_mod_noop_general(ir, rr * ri, n);
    assert((rr * ri) % n == 1);
    assert(ir * 1 == ir) by (nonlinear_arith);
    lemma_small_mod(r, modulus());
}

/// The Montgomery product with `R² mod N` is the Montgomery form.
pub proof fn lemma_lift(x: nat)
    ensures
        mont_product(x, radix_squared()) == to_mont_form(x),
{
    let n = modulus() as int;
    let rr = mont_radix() as int;
    let ri = radix_inverse() as int;
    let r2 = radix_squared() as int;
    let xi = x as int;
    lemma_radix_inverse();
    // x·(R² mod N)·R⁻¹ ≡ x·R·(R·R⁻¹) ≡ x·R
    assert(xi * r2 * ri == (xi * ri) * r2) by (nonlinear_arith);
    lemma_mul_mod_noop_general(xi * ri, rr * rr, n);
    assert(r2 == (rr * rr) % n);
    assert(((xi * ri) * r2) % n == ((xi * ri) * (rr * rr)) % n);
    assert((xi * ri) * (rr * rr) == (xi * rr) * (rr * ri)) by (nonlinear_arith);
    lemma_mul_mod_noop_general(xi * rr, rr * ri, n);
    assert((rr * ri) % n == 1);
    assert((xi * rr) * 1 == xi * rr) by (nonlinear_arith);
}

/// The Montgomery product with one strips a factor `R`.
pub proof fn lemma_project(x: nat)
    ensures
        mont_product(x, 1) == from_mont_form(x),
{
    assert(x * 1 * radix_inverse() == x * radix_inverse()) by (nonlinear_arith);
}

} // verus!
