//! Laws of the field arithmetic, stated over the mathematical operations
//! that the executable functions are specified by.

use crate::arith::{wrapped_add, W6x64};
use crate::chain::chain;
use crate::field::{
    canonical, field_add, field_mul, field_sub, from_mont_form, lemma_mont_product_unique,
    lemma_radix_inverse, lemma_reduce_difference, lemma_reduce_once, modulus, mont_product,
    radix_inverse, to_mont_form,
};
use crate::limbs::lemma_value_injective;
use crate::montgomery::{
    is_mont_product, lemma_mont_product_determined, lemma_reducible_is_odd, mont_radix, reducible,
};
use vstd::arithmetic::div_mod::{
    lemma_add_mod_noop, lemma_mod_bound, lemma_mul_mod_noop_general, lemma_small_mod,
};
use vstd::prelude::*;

verus! {

/// A factor congruent to one can be dropped: if `u ≡ 1 (mod n)` then
/// `x · u ≡ x (mod n)`.
pub proof fn lemma_unit_factor(x: int, u: int, n: int)
    requires
        n > 1,
        u % n == 1,
    ensures
        (x * u) % n == x % n,
{
    lemma_mul_mod_noop_general(x, u, n);
    assert(x * 1 == x) by (nonlinear_arith);
}

/// Round trip: lifting a canonical residue into Montgomery form and
/// projecting it back returns the residue.
pub proof fn law_round_trip(x: nat)
    requires
        canonical(x),
    ensures
        canonical(to_mont_form(x)),
        from_mont_form(to_mont_form(x)) == x,
{
    let n = modulus() as int;
    let r = mont_radix() as int;
    let ri = radix_inverse() as int;
    let xi = x as int;
    lemma_radix_inverse();
    // (x·R mod N)·R⁻¹ ≡ x·(R·R⁻¹) ≡ x
    lemma_mul_mod_noop_general(xi * r, ri, n);
    assert(xi * r * ri == xi * (r * ri)) by (nonlinear_arith);
    lemma_unit_factor(xi, r * ri, n);
    lemma_small_mod(x, modulus());
}

/// Additive inverse: subtracting `b` from the sum of canonical `a` and `b`
/// returns `a`.
pub proof fn law_add_then_sub(a: nat, b: nat)
    requires
        canonical(a),
        canonical(b),
    ensures
        canonical(field_add(a, b)),
        field_sub(field_add(a, b), b) == a,
{
    lemma_reduce_once(a + b, modulus());
    lemma_reduce_difference(field_add(a, b), b, modulus());
}

/// Addition commutes, on canonical operands and on all others.
pub proof fn law_add_commutes(a: nat, b: nat)
    ensures
        field_add(a, b) == field_add(b, a),
        wrapped_add(a, b) == wrapped_add(b, a),
{
    assert(a + b == b + a);
}

/// Addition of canonical residues is associative.
pub proof fn law_add_associates(a: nat, b: nat, c: nat)
    requires
        canonical(a),
        canonical(b),
        canonical(c),
    ensures
        field_add(field_add(a, b), c) == field_add(a, field_add(b, c)),
{
    let n = modulus() as int;
    // Both sides are a + b + c reduced.
    lemma_small_mod(a, modulus());
    lemma_small_mod(c, modulus());
    lemma_add_mod_noop((a + b) as int, c as int, n);
    lemma_add_mod_noop(a as int, (b + c) as int, n);
}

/// Montgomery multiplication commutes.
pub proof fn law_mont_product_commutes(a: nat, b: nat)
    ensures
        mont_product(a, b) == mont_product(b, a),
{
    assert(a * b == b * a) by (nonlinear_arith);
}

/// Montgomery multiplication is associative.
pub proof fn law_mont_product_associates(a: nat, b: nat, c: nat)
    ensures
        mont_product(mont_product(a, b), c) == mont_product(a, mont_product(b, c)),
{
    let n = modulus() as int;
    let ri = radix_inverse() as int;
    let ai = a as int;
    let bi = b as int;
    let ci = c as int;
    let ab = mont_product(a, b) as int;
    let bc = mont_product(b, c) as int;
    // (a·b·R⁻¹ mod N)·c·R⁻¹ ≡ a·b·c·R⁻² ≡ a·(b·c·R⁻¹ mod N)·R⁻¹
    assert(ab == (ai * bi * ri) % n);
    assert(bc == (bi * ci * ri) % n);
    lemma_mul_mod_noop_general(ai * bi * ri, ci * ri, n);
    assert(ab * ci * ri == ab * (ci * ri)) by (nonlinear_arith);
    lemma_mul_mod_noop_general(ai * ri, bi * ci * ri, n);
    assert(ai * bc * ri == (ai * ri) * bc) by (nonlinear_arith);
    assert((ai * bi * ri) * (ci * ri) == (ai * ri) * (bi * ci * ri)) by (nonlinear_arith);
}

/// A zero operand gives a zero product.
pub proof fn law_zero_product(a: nat)
    ensures
        mont_product(0, a) == 0,
        mont_product(a, 0) == 0,
{
    assert(0 * a * radix_inverse() == 0) by (nonlinear_arith);
    assert(a * 0 * radix_inverse() == 0) by (nonlinear_arith);
    lemma_small_mod(0, modulus());
}

/// The Montgomery form of one is neutral: multiplying a canonical residue
/// by it returns the residue.
pub proof fn law_neutral_element(a: nat)
    requires
        canonical(a),
    ensures
        mont_product(a, to_mont_form(1)) == a,
        mont_product(to_mont_form(1), a) == a,
{
    let n = modulus() as int;
    let r = mont_radix() as int;
    let ri = radix_inverse() as int;
    let ai = a as int;
    let one = to_mont_form(1) as int;
    lemma_radix_inverse();
    assert(one == (1 * r) % n);
    assert(1 * r == r) by (nonlinear_arith);
    // a·(R mod N)·R⁻¹ ≡ a·(R·R⁻¹) ≡ a
    assert(ai * one * ri == (ai * ri) * one) by (nonlinear_arith);
    lemma_mul_mod_noop_general(ai * ri, r, n);
    assert((ai * ri) * r == ai * (r * ri)) by (nonlinear_arith);
    lemma_unit_factor(ai, r * ri, n);
    lemma_small_mod(a, modulus());
    law_mont_product_commutes(a, to_mont_form(1));
}

/// The Montgomery product of two canonical residues is canonical.
pub proof fn law_mont_product_canonical(a: nat, b: nat)
    ensures
        canonical(mont_product(a, b)),
{
    lemma_mod_bound((a * b * radix_inverse()) as int, modulus() as int);
}

/// Reference equivalence: the Montgomery product of the Montgomery forms of
/// two canonical residues, projected back to normal form, is their product
/// modulo the prime.
pub proof fn law_reference_equivalence(a: nat, b: nat)
    requires
        canonical(a),
        canonical(b),
    ensures
        from_mont_form(mont_product(to_mont_form(a), to_mont_form(b))) == field_mul(a, b),
{
    let n = modulus() as int;
    let r = mont_radix() as int;
    let ri = radix_inverse() as int;
    let ai = a as int;
    let bi = b as int;
    let am = to_mont_form(a) as int;
    let bm = to_mont_form(b) as int;
    let p = mont_product(to_mont_form(a), to_mont_form(b)) as int;
    lemma_radix_inverse();
    assert(am == (ai * r) % n);
    assert(bm == (bi * r) % n);
    assert(p == (am * bm * ri) % n);
    // p·R⁻¹ ≡ (am·bm·R⁻¹)·R⁻¹
    lemma_mul_mod_noop_general(am * bm * ri, ri, n);
    // am·(bm·R⁻²) ≡ (a·R)·(bm·R⁻²)
    assert(am * bm * ri * ri == am * (bm * ri * ri)) by (nonlinear_arith);
    lemma_mul_mod_noop_general(ai * r, bm * ri * ri, n);
    // bm·(a·R·R⁻²) ≡ (b·R)·(a·R·R⁻²)
    assert((ai * r) * (bm * ri * ri) == bm * (ai * r * ri * ri)) by (nonlinear_arith);
    lemma_mul_mod_noop_general(bi * r, ai * r * ri * ri, n);
    // (a·b)·(R·R⁻¹)·(R·R⁻¹) ≡ a·b
    assert((bi * r) * (ai * r * ri * ri) == ((ai * bi) * (r * ri)) * (r * ri)) by (nonlinear_arith);
    lemma_unit_factor((ai * bi) * (r * ri), r * ri, n);
    lemma_unit_factor(ai * bi, r * ri, n);
}

/// The value of a field element determines its limbs: two elements with the
/// same value are the same six words. Two implementations that return the
/// same value therefore return bit-identical results.
pub proof fn law_value_determines_limbs(x: W6x64, y: W6x64)
    requires
        x@ == y@,
    ensures
        x == y,
{
    lemma_value_injective(x.v@, y.v@, 6);
    assert(x.v =~= y.v);
}

/// The multiplication for a modulus given at run time agrees with the one
/// for the field prime: modulo the prime, a Montgomery product of `a` and
/// `b` is `mont_product(a, b)` and nothing else.
pub proof fn law_general_modulus_agrees(a: nat, b: nat, r: nat)
    requires
        is_mont_product(r, a, b, modulus()),
    ensures
        r == mont_product(a, b),
{
    lemma_mont_product_unique(a, b, r);
}

/// The contract of the multiplication for a modulus given at run time
/// leaves one result only: for a modulus that is reducible with its
/// constant, two Montgomery products of the same operands are equal.
pub proof fn law_general_product_determined(
    n: W6x64,
    n_prime: u64,
    a: nat,
    b: nat,
    r1: nat,
    r2: nat,
)
    requires
        reducible(n@, n.v@[0], n_prime),
        is_mont_product(r1, a, b, n@),
        is_mont_product(r2, a, b, n@),
    ensures
        r1 == r2,
{
    lemma_reducible_is_odd(n.v@, n_prime);
    lemma_mont_product_determined(n@, a, b, r1, r2);
}

/// The Montgomery product of two Montgomery forms is the Montgomery form of
/// the product.
pub proof fn law_product_of_forms(a: nat, b: nat)
    ensures
        mont_product(to_mont_form(a), to_mont_form(b)) == to_mont_form(field_mul(a, b)),
{
    let n = modulus() as int;
    let r = mont_radix() as int;
    let ri = radix_inverse() as int;
    let ai = a as int;
    let bi = b as int;
    let am = to_mont_form(a) as int;
    let bm = to_mont_form(b) as int;
    lemma_radix_inverse();
    assert(am == (ai * r) % n);
    assert(bm == (bi * r) % n);
    // am·(bm·R⁻¹) ≡ (a·R)·(bm·R⁻¹)
    assert(am * bm * ri == am * (bm * ri)) by (nonlinear_arith);
    lemma_mul_mod_noop_general(ai * r, bm * ri, n);
    // bm·(a·R·R⁻¹) ≡ (b·R)·(a·R·R⁻¹)
    assert((ai * r) * (bm * ri) == bm * (ai * r * ri)) by (nonlinear_arith);
    lemma_mul_mod_noop_general(bi * r, ai * r * ri, n);
    // (a·b·R)·(R·R⁻¹) ≡ a·b·R ≡ (a·b mod N)·R
    assert((bi * r) * (ai * r * ri) == (ai * bi * r) * (r * ri)) by (nonlinear_arith);
    lemma_unit_factor(ai * bi * r, r * ri, n);
    lemma_mul_mod_noop_general(ai * bi, r, n);
}

/// Chained Montgomery products follow chained reference products: started
/// from the Montgomery forms of `x` and `y`, every round of the Montgomery
/// chain holds the Montgomery forms of what the reference chain holds.
pub proof fn law_chains_agree(x: nat, y: nat, rounds: nat)
    ensures
        ({
            let m = chain(
                |p: nat, q: nat| mont_product(p, q),
                to_mont_form(x),
                to_mont_form(y),
                rounds,
            );
            let r = chain(|p: nat, q: nat| field_mul(p, q), x, y, rounds);
            m == (to_mont_form(r.0), to_mont_form(r.1))
        }),
    decreases rounds,
{
    if rounds > 0 {
        law_chains_agree(x, y, (rounds - 1) as nat);
        let r = chain(|p: nat, q: nat| field_mul(p, q), x, y, (rounds - 1) as nat);
        law_product_of_forms(r.0, r.1);
    }
}

} // verus!
