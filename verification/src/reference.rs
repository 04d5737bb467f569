//! An independent reference: modular multiplication by arbitrary-precision
//! arithmetic, with no Montgomery form and no fixed width.
//!
//! The big-integer arithmetic is `num_bigint`'s. Values cross to it and back
//! as sequences of base-`2^32` digits, least significant first, which is the
//! form in which `num_bigint` takes and gives them.

use crate::arith::{lemma_modulus_limbs, W6x64, N};
use crate::chain::chain;
use crate::field::{field_mul, lemma_radix_inverse, modulus};
use crate::limbs::{lemma_value_agree, lemma_value_bound, limbs_value, radix, radix_pow};
use crate::montgomery::mont_radix;
use num_bigint::BigUint;
use vstd::arithmetic::div_mod::{
    lemma_fundamental_div_mod_converse, lemma_mod_bound, lemma_small_mod,
};
use vstd::prelude::*;

verus! {

/// The radix of one digit, `2^32`.
pub open spec fn digit_radix() -> nat {
    0x1_0000_0000
}

/// `digit_radix()^k`, the weight of digit `k`.
pub open spec fn digit_pow(k: nat) -> nat
    decreases k,
{
    if k == 0 {
        1
    } else {
        digit_radix() * digit_pow((k - 1) as nat)
    }
}

/// The value of the first `k` digits of `s`, least significant digit first.
pub open spec fn digits_prefix(s: Seq<u32>, k: nat) -> nat
    decreases k,
{
    if k == 0 {
        0
    } else {
        digits_prefix(s, (k - 1) as nat) + (s[k - 1] as nat) * digit_pow((k - 1) as nat)
    }
}

/// The natural number that a digit sequence stands for.
pub open spec fn digits_value(s: Seq<u32>) -> nat {
    digits_prefix(s, s.len())
}

/// Two digits weigh as much as one limb.
pub proof fn lemma_digit_pow_even(j: nat)
    ensures
        digit_pow(2 * j) == radix_pow(j),
        digit_pow(2 * j + 1) == digit_radix() * radix_pow(j),
    decreases j,
{
    if j > 0 {
        lemma_digit_pow_even((j - 1) as nat);
        let p = radix_pow((j - 1) as nat);
        assert(digit_pow(2 * j) == digit_radix() * digit_pow((2 * j - 1) as nat));
        assert(digit_pow((2 * j - 1) as nat) == digit_radix() * digit_pow((2 * j - 2) as nat));
        assert(digit_radix() * (digit_radix() * p) == radix() * p) by (nonlinear_arith)
            requires
                digit_radix() * digit_radix() == radix(),
        ;
    }
    assert(digit_pow(2 * j + 1) == digit_radix() * digit_pow(2 * j));
}

/// The value of a prefix depends on the digits of that prefix only.
pub proof fn lemma_digits_agree(s: Seq<u32>, t: Seq<u32>, k: nat)
    requires
        forall|i: int| 0 <= i < k ==> s[i] == t[i],
    ensures
        digits_prefix(s, k) == digits_prefix(t, k),
    decreases k,
{
    if k > 0 {
        lemma_digits_agree(s, t, (k - 1) as nat);
    }
}

/// A prefix of zero digits has value zero.
pub proof fn lemma_digits_zero(s: Seq<u32>, k: nat)
    requires
        forall|i: int| 0 <= i < k ==> s[i] == 0,
    ensures
        digits_prefix(s, k) == 0,
    decreases k,
{
    if k > 0 {
        lemma_digits_zero(s, (k - 1) as nat);
        assert(0 * digit_pow((k - 1) as nat) == 0) by (nonlinear_arith);
    }
}

/// A value of `k + m` digits is its low `k` digits plus `2^(32 k)` times the
/// `m` digits above them.
pub proof fn lemma_digits_split(s: Seq<u32>, k: nat, m: nat)
    requires
        k + m <= s.len(),
    ensures
        digits_prefix(s, k + m) == digits_prefix(s, k) + digit_pow(k) * digits_prefix(
            s.skip(k as int),
            m,
        ),
    decreases m,
{
    let hi = s.skip(k as int);
    if m == 0 {
        assert(digit_pow(k) * 0 == 0) by (nonlinear_arith);
    } else {
        let j = (m - 1) as nat;
        lemma_digits_split(s, k, j);
        lemma_digit_pow_add(k, j);
        assert(hi[j as int] == s[(k + j) as int]);
        let pk = digit_pow(k);
        let pj = digit_pow(j);
        let d = s[(k + j) as int] as nat;
        let v = digits_prefix(hi, j);
        assert(pk * (v + d * pj) == pk * v + d * (pk * pj)) by (nonlinear_arith);
    }
}

/// Digit weights multiply.
pub proof fn lemma_digit_pow_add(a: nat, b: nat)
    ensures
        digit_pow(a + b) == digit_pow(a) * digit_pow(b),
    decreases a,
{
    if a == 0 {
        assert(1 * digit_pow(b) == digit_pow(b)) by (nonlinear_arith);
    } else {
        lemma_digit_pow_add((a - 1) as nat, b);
        let pa = digit_pow((a - 1) as nat);
        let pb = digit_pow(b);
        assert(digit_pow(a + b) == digit_radix() * digit_pow((a - 1 + b) as nat));
        assert(digit_radix() * (pa * pb) == (digit_radix() * pa) * pb) by (nonlinear_arith);
    }
}

/// The two halves of a limb are its remainder and quotient by `2^32`, and
/// putting two digits side by side makes the limb with those halves.
pub proof fn lemma_limb_halves(limb: u64, lo: u32, hi: u32)
    by (bit_vector)
    ensures
        (limb as u32) as u64 + ((limb >> 32) as u32) as u64 * 0x1_0000_0000 == limb,
        (limb >> 32) <= 0xffff_ffff,
        ((lo as u64) | ((hi as u64) << 32)) == lo as u64 + (hi as u64) * 0x1_0000_0000,
{
}

/// The digits of a field element: two for each limb, twelve in all.
pub fn to_digits(x: &W6x64) -> (d: Vec<u32>)
    ensures
        d@.len() == 12,
        digits_value(d@) == x@,
{
    let mut d: Vec<u32> = Vec::new();
    for i in 0..6
        invariant
            d@.len() == 2 * i,
            digits_prefix(d@, (2 * i) as nat) == limbs_value(x.v@, i as nat),
    {
        let ghost before = d@;
        let limb = x.v[i];
        let lo = #[verifier::truncate] (limb as u32);
        let hi = (limb >> 32) as u32;
        proof {
            lemma_limb_halves(limb, lo, hi);
        }
        d.push(lo);
        d.push(hi);
        proof {
            let k = (2 * i) as nat;
            lemma_digits_agree(before, d@, k);
            lemma_digit_pow_even(i as nat);
            assert(digits_prefix(d@, k + 1) == digits_prefix(d@, k) + (lo as nat) * digit_pow(k));
            assert(digits_prefix(d@, k + 2) == digits_prefix(d@, k + 1) + (hi as nat) * digit_pow(
                k + 1,
            ));
            let p = radix_pow(i as nat);
            assert((lo as nat) * p + (hi as nat) * (digit_radix() * p) == (limb as nat) * p)
                by (nonlinear_arith)
                requires
                    lo as nat + (hi as nat) * digit_radix() == limb as nat,
            ;
        }
    }
    d
}

/// The field element with the given digits: the value of the digits where
/// six limbs can hold it, and in any case that value modulo `2^384`. Digits
/// that are missing count as zero; digits above the twelfth are dropped.
pub fn from_digits(d: &Vec<u32>) -> (r: W6x64)
    ensures
        r@ == digits_value(d@) % mont_radix(),
        digits_value(d@) < mont_radix() ==> r@ == digits_value(d@),
{
    let ghost padded = Seq::new(
        if d@.len() < 12 {
            12
        } else {
            d@.len()
        },
        |k: int|
            if k < d@.len() {
                d@[k]
            } else {
                0u32
            },
    );
    let mut r = W6x64::default();
    for i in 0..6
        invariant
            padded.len() >= 12,
            forall|k: int| 0 <= k < d@.len() ==> padded[k] == d@[k],
            forall|k: int| d@.len() <= k < padded.len() ==> padded[k] == 0,
            limbs_value(r.v@, i as nat) == digits_prefix(padded, (2 * i) as nat),
    {
        let ghost before = r.v@;
        let lo = if 2 * i < d.len() {
            d[2 * i]
        } else {
            0
        };
        let hi = if 2 * i + 1 < d.len() {
            d[2 * i + 1]
        } else {
            0
        };
        let limb = u64::from(lo) | (u64::from(hi) << 32);
        r.v[i] = limb;
        proof {
            let k = (2 * i) as nat;
            lemma_limb_halves(limb, lo, hi);
            lemma_value_agree(before, r.v@, i as nat);
            lemma_digit_pow_even(i as nat);
            assert(digits_prefix(padded, k + 1) == digits_prefix(padded, k) + (lo as nat)
                * digit_pow(k));
            assert(digits_prefix(padded, k + 2) == digits_prefix(padded, k + 1) + (hi as nat)
                * digit_pow(k + 1));
            let p = radix_pow(i as nat);
            assert((lo as nat) * p + (hi as nat) * (digit_radix() * p) == (limb as nat) * p)
                by (nonlinear_arith)
                requires
                    lo as nat + (hi as nat) * digit_radix() == limb as nat,
            ;
        }
    }
    proof {
        let len = d@.len();
        lemma_digit_pow_even(6);
        lemma_value_bound(r.v@, 6);
        if len <= 12 {
            // The padding adds nothing.
            lemma_digits_split(padded, len, (12 - len) as nat);
            lemma_digits_zero(padded.skip(len as int), (12 - len) as nat);
            lemma_digits_agree(padded, d@, len);
            assert(digit_pow(len) * 0 == 0) by (nonlinear_arith);
            lemma_small_mod(r@, mont_radix());
        } else {
            // Digits above the twelfth weigh multiples of 2^384.
            assert(padded =~= d@);
            lemma_digits_split(d@, 12, (len - 12) as nat);
            let high = digits_prefix(d@.skip(12), (len - 12) as nat);
            assert(mont_radix() * high == high * mont_radix()) by (nonlinear_arith);
            lemma_fundamental_div_mod_converse(
                digits_value(d@) as int,
                mont_radix() as int,
                high as int,
                r@ as int,
            );
        }
        if digits_value(d@) < mont_radix() {
            lemma_small_mod(digits_value(d@), mont_radix());
        }
    }
    r
}

/// `num_bigint`'s multiplication of two `BigUint`s (`Mul::mul`, written
/// `*`): the value of what it returns is the product of the values of its
/// operands. The operands cross as base-`2^32` digits through
/// `BigUint::from_slice`, and the product comes back through
/// `BigUint::to_u32_digits`, least significant digit first both ways.
#[verifier::external_body]
fn big_mul(x: &Vec<u32>, y: &Vec<u32>) -> (r: Vec<u32>)
    ensures
        digits_value(r@) == digits_value(x@) * digits_value(y@),
{
    (&BigUint::from_slice(x) * &BigUint::from_slice(y)).to_u32_digits()
}

/// `num_bigint`'s remainder of one `BigUint` by another (`Rem::rem`, written
/// `%`): the value of what it returns is the value of the first operand
/// modulo the value of the second. On a zero divisor `%` panics, so the
/// divisor must not be zero. The operands cross as base-`2^32` digits
/// through `BigUint::from_slice`, and the remainder comes back through
/// `BigUint::to_u32_digits`, least significant digit first both ways.
#[verifier::external_body]
fn big_rem(x: &Vec<u32>, m: &Vec<u32>) -> (r: Vec<u32>)
    requires
        digits_value(m@) > 0,
    ensures
        digits_value(r@) == digits_value(x@) % digits_value(m@),
{
    (BigUint::from_slice(x) % &BigUint::from_slice(m)).to_u32_digits()
}

/// A thousand chained modular multiplications in arbitrary precision,
/// started from `(x, y)`: each round multiplies, reduces modulo the field
/// prime, and hands the result and its first operand to the next round.
pub fn mul_big(x: &W6x64, y: &W6x64) -> (result: W6x64)
    ensures
        result@ == chain(|p: nat, q: nat| field_mul(p, q), x@, y@, 1000).0,
{
    let ghost op = |p: nat, q: nat| field_mul(p, q);
    let mut xx = to_digits(x);
    let mut yy = to_digits(y);
    let prime = to_digits(&W6x64 { v: N });
    proof {
        lemma_modulus_limbs();
        lemma_radix_inverse();
        lemma_value_bound(x.v@, 6);
        lemma_value_bound(y.v@, 6);
    }
    for i in 0..1_000
        invariant
            forall|p: nat, q: nat| #[trigger] op(p, q) == field_mul(p, q),
            digits_value(prime@) == modulus(),
            digits_value(xx@) < mont_radix(),
            (digits_value(xx@), digits_value(yy@)) == chain(op, x@, y@, i as nat),
    {
        let product = big_mul(&xx, &yy);
        let result = big_rem(&product, &prime);
        proof {
            lemma_radix_inverse();
            lemma_mod_bound((digits_value(xx@) * digits_value(yy@)) as int, modulus() as int);
        }
        yy = xx;
        xx = result;
    }
    from_digits(&xx)
}

} // verus!
