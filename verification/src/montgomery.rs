//! The reasoning behind Montgomery multiplication by coarsely integrated
//! operand scanning.
//!
//! The multiplication keeps a twelve-limb accumulator. Round `i` adds
//! `a · b[i] · 2^(64 i)` to it, then adds the multiple `m · n · 2^(64 i)` of
//! the modulus that clears limb `i`. After six rounds the accumulator is
//! `a · b + M · n` with its six low limbs zero, so its six high limbs are
//! `(a · b + M · n) / 2^384`, which is below `2 n` and congruent to
//! `a · b · 2^(-384)`.
//!
//! The lemmas here take the modulus as a parameter; nothing in them depends
//! on which odd modulus below `2^383` it is.

use crate::limbs::{
    lemma_radix_pow_add, lemma_radix_pow_positive, lemma_value_bound, lemma_value_lower,
    lemma_value_six, lemma_value_update, limbs_value, radix, radix_pow,
};
use vstd::arithmetic::div_mod::{
    lemma_add_mod_noop, lemma_fundamental_div_mod, lemma_fundamental_div_mod_converse,
    lemma_mod_equivalence, lemma_mod_multiples_vanish, lemma_mul_mod_noop_general,
    lemma_small_mod,
};
use vstd::arithmetic::power2::{lemma2_to64, lemma_pow2_unfold, pow2};
use vstd::prelude::*;
use vstd::wrapping::u64_specs::wrapping_add;

verus! {

/// The Montgomery radix `R = 2^384`, one more than the largest six-limb value.
pub open spec fn mont_radix() -> nat {
    radix_pow(6)
}

/// `r` is a Montgomery product of `a` and `b` modulo `n`: a residue below
/// `n` with `r · R ≡ a · b (mod n)`. For an odd modulus there is exactly one
/// (see [`lemma_mont_product_determined`]).
pub open spec fn is_mont_product(r: nat, a: nat, b: nat, n: nat) -> bool {
    r < n && (r * mont_radix()) % n == (a * b) % n
}

/// The modulus `n` with lowest limb `n0`, and the constant `n_prime`, are
/// ones that six rounds of operand scanning reduce by: `n` is below `2^383`,
/// so that twice the modulus fits in six limbs, and `n_prime` is the negated
/// inverse of `n0` modulo `2^64`.
pub open spec fn reducible(n: nat, n0: u64, n_prime: u64) -> bool {
    2 * n <= mont_radix() && is_reduction_constant(n0, n_prime)
}

/// `n_prime` is the negated inverse of the modulus' lowest limb `n0`:
/// `n0 · n_prime ≡ −1 (mod 2^64)`.
pub open spec fn is_reduction_constant(n0: u64, n_prime: u64) -> bool {
    (n0 as nat * n_prime as nat) % radix() == radix() - 1
}

/// The accumulator `t` at the start of round `i`: it holds `a` times the low
/// `i` limbs of `b`, plus a multiple `mm · n` of the modulus with
/// `mm < 2^(64 i)`; its limbs below `i` are already cleared and those from
/// `i + 6` on are still untouched.
pub open spec fn round_state(t: Seq<u64>, a: nat, b: Seq<u64>, mm: nat, n: nat, i: nat) -> bool {
    &&& t.len() == 12
    &&& limbs_value(t, 12) == a * limbs_value(b, i) + mm * n
    &&& mm < radix_pow(i)
    &&& forall|k: int| 0 <= k < i ==> t[k] == 0
    &&& forall|k: int| i + 6 <= k < 12 ==> t[k] == 0
}

/// The start of a multiply-accumulate row: nothing added yet, no carry
/// pending.
pub proof fn lemma_row_start(t: Seq<u64>, x: Seq<u64>, y: u64, i: nat)
    ensures
        limbs_value(t, 12) + 0 * radix_pow(i) == limbs_value(t, 12) + limbs_value(x, 0) * y
            * radix_pow(i),
{
    let p = radix_pow(i) as int;
    let yy = y as int;
    assert(0 * p == 0 * yy * p) by (nonlinear_arith);
}

/// One limb of a multiply-accumulate row. The row adds `x · y · 2^(64 i)` to
/// the accumulator `t`; after `j` limbs, with carry `cin` pending at limb
/// `i + j`, it has added the low `j` limbs of `x`. Storing the low half `lo`
/// of `x[j] · y + t[i + j] + cin` and carrying the high half `hi` extends this
/// to `j + 1` limbs.
pub proof fn lemma_row_step(
    t: Seq<u64>,
    x: Seq<u64>,
    y: u64,
    i: nat,
    j: nat,
    cin: u64,
    lo: u64,
    hi: u64,
    t0: nat,
)
    requires
        t.len() == 12,
        i + j < 12,
        limbs_value(t, 12) + cin * radix_pow(i + j) == t0 + limbs_value(x, j) * y * radix_pow(i),
        lo + hi * radix() == x[j as int] * y + t[(i + j) as int] + cin,
    ensures
        limbs_value(t.update((i + j) as int, lo), 12) + hi * radix_pow(i + j + 1) == t0
            + limbs_value(x, j + 1) * y * radix_pow(i),
{
    let p = radix_pow(i + j) as int;
    let pi = radix_pow(i) as int;
    let pj = radix_pow(j) as int;
    let xj = x[j as int] as int;
    let tp = t[(i + j) as int] as int;
    let v = limbs_value(x, j) as int;
    let yy = y as int;
    let l = lo as int;
    let h = hi as int;
    let c = cin as int;
    let b = radix() as int;
    lemma_radix_pow_add(i, j);
    lemma_value_update(t, i + j, lo, 12);
    assert(radix_pow(i + j + 1) == radix() * radix_pow(i + j));
    assert(l * p + h * (b * p) == xj * yy * p + tp * p + c * p) by (nonlinear_arith)
        requires
            l + h * b == xj * yy + tp + c,
    ;
    assert((v + xj * pj) * yy * pi == v * yy * pi + xj * yy * p) by (nonlinear_arith)
        requires
            p == pi * pj,
    ;
}

/// The reduction multiplier clears the limb it was computed from: with
/// `m = t · n_prime mod 2^64`, the low half of `m · n0 + t` is zero.
pub proof fn lemma_reduce_digit(t: u64, n0: u64, n_prime: u64, m: u64, lo: u64, hi: u64)
    requires
        is_reduction_constant(n0, n_prime),
        m as nat == (t as nat * n_prime as nat) % radix(),
        lo + hi * radix() == m * n0 + t,
    ensures
        lo == 0,
{
    let b = radix() as int;
    let tt = t as int;
    let np = n_prime as int;
    let nn = n0 as int;
    let mi = m as int;
    assert(mi == (tt * np) % b);
    // m · n0 ≡ t · n_prime · n0 ≡ t · (−1)
    lemma_mul_mod_noop_general(tt * np, nn, b);
    assert((mi * nn) % b == (tt * np * nn) % b);
    assert(tt * np * nn == tt * (nn * np)) by (nonlinear_arith);
    lemma_mul_mod_noop_general(tt, nn * np, b);
    assert((nn * np) % b == b - 1);
    assert((tt * (nn * np)) % b == (tt * (b - 1)) % b);
    lemma_add_mod_noop(mi * nn, tt, b);
    lemma_add_mod_noop(tt * (b - 1), tt, b);
    assert(tt * (b - 1) + tt == b * tt + 0) by (nonlinear_arith);
    lemma_mod_multiples_vanish(tt, 0, b);
    assert((mi * nn + tt) % b == 0);
    assert(mi * nn + tt == (hi as int) * b + lo);
    lemma_fundamental_div_mod_converse(mi * nn + tt, b, hi as int, lo as int);
}

/// The end of the multiply row of round `i`: the limb that takes the row's
/// carry was still zero, and once it holds the carry the accumulator has
/// taken in limb `i` of `b`.
pub proof fn lemma_mul_row_done(
    start: Seq<u64>,
    done: Seq<u64>,
    a: nat,
    b: Seq<u64>,
    mm: nat,
    n: nat,
    i: nat,
    carry: u64,
)
    requires
        i < 6,
        round_state(start, a, b, mm, n, i),
        done.len() == 12,
        done[(i + 6) as int] == start[(i + 6) as int],
        limbs_value(done, 12) + carry * radix_pow(i + 6) == limbs_value(start, 12) + a * b[i as int]
            * radix_pow(i),
    ensures
        done[(i + 6) as int] == 0,
        limbs_value(done.update((i + 6) as int, carry), 12) == a * limbs_value(b, i + 1) + mm * n,
{
    lemma_value_update(done, i + 6, carry, 12);
    let p = radix_pow(i) as int;
    let bi = b[i as int] as int;
    let v = limbs_value(b, i) as int;
    let aa = a as int;
    assert(0 * radix_pow(i + 6) == 0) by (nonlinear_arith);
    assert(aa * (v + bi * p) == aa * v + aa * bi * p) by (nonlinear_arith);
}

/// The end of the reduce row of round `i`, for a multiplicand below the
/// modulus and a modulus below `2^383`: the row's carry fits into the limb
/// above the row, and once added there the accumulator is in the state that
/// round `i + 1` starts from.
pub proof fn lemma_reduce_row_done(
    start: Seq<u64>,
    done: Seq<u64>,
    a: nat,
    b: Seq<u64>,
    mm: nat,
    n: nat,
    i: nat,
    m: u64,
    carry: u64,
)
    requires
        i < 6,
        a < n,
        2 * n <= radix_pow(6),
        mm < radix_pow(i),
        done.len() == 12,
        limbs_value(start, 12) == a * limbs_value(b, i + 1) + mm * n,
        limbs_value(done, 12) + carry * radix_pow(i + 6) == limbs_value(start, 12) + n * m
            * radix_pow(i),
    ensures
        done[(i + 6) as int] + carry < radix(),
        mm + m * radix_pow(i) < radix_pow(i + 1),
        limbs_value(done.update((i + 6) as int, (done[(i + 6) as int] + carry) as u64), 12) == a * limbs_value(
            b,
            i + 1,
        ) + (mm + m * radix_pow(i)) * n,
{
    let p = radix_pow(i) as int;
    let p_next = radix_pow(i + 1) as int;
    let p_top = radix_pow(i + 6) as int;
    let r = radix_pow(6) as int;
    let bb = radix() as int;
    let v = limbs_value(b, i + 1) as int;
    let aa = a as int;
    let nn = n as int;
    let mi = m as int;
    let mmi = mm as int;
    let c = carry as int;
    let top = done[(i + 6) as int] as int;
    let total = aa * v + (mmi + mi * p) * nn;
    lemma_radix_pow_positive(i);
    lemma_radix_pow_add(i + 1, 6);
    lemma_radix_pow_add(i, 6);
    lemma_value_bound(b, i + 1);
    lemma_value_lower(done, i + 6, 12);
    assert(p_next == bb * p);
    assert(radix_pow(i + 7) == bb * p_top) by {
        assert(radix_pow(i + 7) == radix() * radix_pow(i + 6));
    }
    assert(radix_pow(i + 7) == p_next * r) by {
        assert((i + 7) as nat == (i + 1 + 6) as nat);
    }
    // The new multiple of the modulus stays below 2^(64 (i + 1)).
    assert(mmi + mi * p < p_next) by (nonlinear_arith)
        requires
            0 <= mmi < p,
            0 <= mi < bb,
            p_next == bb * p,
    ;
    assert(limbs_value(done, 12) + c * p_top == total) by (nonlinear_arith)
        requires
            limbs_value(done, 12) + c * p_top == limbs_value(start, 12) + nn * mi * p,
            limbs_value(start, 12) == aa * v + mmi * nn,
            total == aa * v + (mmi + mi * p) * nn,
    ;
    // Both summands are below n · 2^(64 (i + 1)), and 2 n is within six limbs.
    assert(total < p_next * r) by (nonlinear_arith)
        requires
            total == aa * v + (mmi + mi * p) * nn,
            0 <= aa < nn,
            0 <= v < p_next,
            0 <= mmi + mi * p < p_next,
            2 * nn <= r,
    {
        assert(aa * v <= nn * p_next);
        assert((mmi + mi * p) * nn < p_next * nn);
        assert(p_next * nn + nn * p_next == p_next * (2 * nn));
        assert(p_next * (2 * nn) <= p_next * r);
    }
    assert(top + c < bb) by (nonlinear_arith)
        requires
            top * p_top <= limbs_value(done, 12),
            limbs_value(done, 12) + c * p_top == total,
            total < bb * p_top,
            p_top > 0,
    {
        assert((top + c) * p_top < bb * p_top);
    }
    lemma_value_update(done, i + 6, (top + c) as u64, 12);
    assert((top + c) * p_top == top * p_top + c * p_top) by (nonlinear_arith);
}

/// What a finished multiply-accumulate row leaves: the accumulator `done`
/// differs from `start` in limbs `i` to `i + 5` only, and together with the
/// carry out of the row it holds `x · y · 2^(64 i)` more.
pub open spec fn row_result(
    start: Seq<u64>,
    done: Seq<u64>,
    x: nat,
    y: u64,
    i: nat,
    carry: u64,
) -> bool {
    &&& done.len() == 12
    &&& forall|k: int| 0 <= k < 12 && !(i <= k < i + 6) ==> done[k] == start[k]
    &&& limbs_value(done, 12) + carry * radix_pow(i + 6) == limbs_value(start, 12) + x * y
        * radix_pow(i)
}

/// The accumulator after a row's carry is added, wrapping, into the limb
/// above the row.
pub open spec fn carry_added(t: Seq<u64>, i: nat, carry: u64) -> Seq<u64> {
    t.update((i + 6) as int, wrapping_add(t[(i + 6) as int], carry))
}

/// One whole round. From the state at the start of round `i`, a multiply
/// row with limb `i` of `b`, its carry, a reduce row with a multiplier `m`
/// that clears limb `i`, and its carry lead to the state at the start of
/// round `i + 1`, for a multiplicand below the modulus and a modulus below
/// `2^383`. Neither carry wraps.
pub proof fn lemma_round(
    row_start: Seq<u64>,
    row_done: Seq<u64>,
    red_start: Seq<u64>,
    red_done: Seq<u64>,
    next: Seq<u64>,
    a: nat,
    b: Seq<u64>,
    mm: nat,
    n: nat,
    i: nat,
    m: u64,
    carry_row: u64,
    carry_red: u64,
)
    requires
        i < 6,
        a < n,
        2 * n <= radix_pow(6),
        round_state(row_start, a, b, mm, n, i),
        row_result(row_start, row_done, a, b[i as int], i, carry_row),
        red_start == carry_added(row_done, i, carry_row),
        row_result(red_start, red_done, n, m, i, carry_red),
        red_done[i as int] == 0,
        next == carry_added(red_done, i, carry_red),
    ensures
        round_state(next, a, b, mm + (m as nat) * radix_pow(i), n, i + 1),
{
    lemma_mul_row_done(row_start, row_done, a, b, mm, n, i, carry_row);
    assert(red_start == row_done.update((i + 6) as int, carry_row));
    assert(limbs_value(red_done, 12) + carry_red * radix_pow(i + 6) == limbs_value(red_start, 12)
        + n * m * radix_pow(i));
    lemma_reduce_row_done(red_start, red_done, a, b, mm, n, i, m, carry_red);
    assert(next == red_done.update(
        (i + 6) as int,
        (red_done[(i + 6) as int] + carry_red) as u64,
    ));
    assert forall|k: int| 0 <= k < i + 1 implies next[k] == 0 by {
        if k < i {
            assert(red_done[k] == red_start[k]);
            assert(row_done[k] == row_start[k]);
        }
    }
    assert forall|k: int| i + 1 + 6 <= k < 12 implies next[k] == 0 by {
        assert(red_done[k] == red_start[k]);
        assert(row_done[k] == row_start[k]);
    }
}

/// The final subtraction. If six rounds leave `h · 2^384 = a · b + mm · n`
/// with `a, b < n` and `mm < 2^384`, then `h < 2 n`, and `h` less the modulus
/// where it is not below it is the residue `r < n` with
/// `r · 2^384 ≡ a · b (mod n)`.
pub proof fn lemma_reduce_congruent(n: nat, a: nat, b: nat, mm: nat, h: nat, r: nat)
    requires
        a < n,
        b < n,
        n <= radix_pow(6),
        mm < radix_pow(6),
        h * radix_pow(6) == a * b + mm * n,
        r == (if h < n {
            h
        } else {
            (h - n) as nat
        }),
    ensures
        h < 2 * n,
        r < n,
        (r * radix_pow(6)) % n == (a * b) % n,
{
    let rr = radix_pow(6) as int;
    let nn = n as int;
    let aa = a as int;
    let bb = b as int;
    let mi = mm as int;
    let hh = h as int;
    lemma_radix_pow_positive(6);
    assert(hh < 2 * nn) by (nonlinear_arith)
        requires
            hh * rr == aa * bb + mi * nn,
            0 <= aa < nn,
            0 <= bb < nn,
            nn <= rr,
            0 <= mi < rr,
            rr > 0,
    {
        assert(aa * bb < nn * rr);
        assert(mi * nn < rr * nn);
        assert(hh * rr < (2 * nn) * rr);
    }
    let k: int = if h < n {
        0
    } else {
        1
    };
    assert((r as int) * rr == nn * (mi - k * rr) + aa * bb) by (nonlinear_arith)
        requires
            hh * rr == aa * bb + mi * nn,
            r as int == hh - k * nn,
    ;
    lemma_mod_multiples_vanish(mi - k * rr, aa * bb, nn);
}

/// Two is invertible modulo an odd number: if `n` divides `2 x`, it divides
/// `x`.
pub proof fn lemma_cancel_two(x: int, n: int)
    requires
        n > 0,
        n % 2 == 1,
        (2 * x) % n == 0,
    ensures
        x % n == 0,
{
    let q = (2 * x) / n;
    let k = n / 2;
    lemma_fundamental_div_mod(2 * x, n);
    assert(x == n * (x - k * q) + 0) by (nonlinear_arith)
        requires
            2 * x == n * q,
            n == 2 * k + 1,
    ;
    lemma_mod_multiples_vanish(x - k * q, 0, n);
    lemma_small_mod(0, n as nat);
}

/// Powers of two are invertible modulo an odd number.
pub proof fn lemma_cancel_pow2(x: int, n: int, e: nat)
    requires
        n > 0,
        n % 2 == 1,
        (pow2(e) * x) % n == 0,
    ensures
        x % n == 0,
    decreases e,
{
    if e == 0 {
        lemma2_to64();
        assert(pow2(0) * x == x) by (nonlinear_arith)
            requires
                pow2(0) == 1,
        ;
    } else {
        let h = pow2((e - 1) as nat) as int;
        lemma_pow2_unfold(e);
        assert(pow2(e) * x == 2 * (h * x)) by (nonlinear_arith)
            requires
                pow2(e) == 2 * h,
        ;
        lemma_cancel_two(h * x, n);
        lemma_cancel_pow2(x, n, (e - 1) as nat);
    }
}

/// Powers of the limb radix are invertible modulo an odd number.
pub proof fn lemma_cancel_radix_pow(x: int, n: int, k: nat)
    requires
        n > 0,
        n % 2 == 1,
        (radix_pow(k) * x) % n == 0,
    ensures
        x % n == 0,
    decreases k,
{
    if k == 0 {
        assert(radix_pow(0) * x == x) by (nonlinear_arith)
            requires
                radix_pow(0) == 1,
        ;
    } else {
        let p = radix_pow((k - 1) as nat) as int;
        lemma2_to64();
        assert(radix_pow(k) * x == pow2(64) * (p * x)) by (nonlinear_arith)
            requires
                radix_pow(k) == pow2(64) * p,
        ;
        lemma_cancel_pow2(p * x, n, 64);
        lemma_cancel_radix_pow(x, n, (k - 1) as nat);
    }
}

/// Modulo an odd number, two operands have one Montgomery product only.
pub proof fn lemma_mont_product_determined(n: nat, a: nat, b: nat, r1: nat, r2: nat)
    requires
        n % 2 == 1,
        is_mont_product(r1, a, b, n),
        is_mont_product(r2, a, b, n),
    ensures
        r1 == r2,
{
    let rr = mont_radix() as int;
    let ni = n as int;
    let d = r1 as int - r2 as int;
    lemma_mod_equivalence(r1 as int * rr, r2 as int * rr, ni);
    assert(rr * d == r1 as int * rr - r2 as int * rr) by (nonlinear_arith)
        requires
            d == r1 as int - r2 as int,
    ;
    lemma_cancel_radix_pow(d, ni, 6);
    if d > 0 {
        lemma_small_mod(d as nat, n);
    } else if d < 0 {
        lemma_small_mod((-d) as nat, n);
        lemma_mod_equivalence(0, d, ni);
        lemma_small_mod(0, n);
    }
}

/// A modulus that has a reduction constant is odd.
pub proof fn lemma_reducible_is_odd(s: Seq<u64>, n_prime: u64)
    requires
        s.len() >= 6,
        is_reduction_constant(s[0], n_prime),
    ensures
        limbs_value(s, 6) % 2 == 1,
{
    let n0 = s[0] as int;
    let np = n_prime as int;
    let b = radix() as int;
    lemma_value_six(s);
    lemma_fundamental_div_mod(n0 * np, b);
    let q = (n0 * np) / b;
    if n0 % 2 == 0 {
        let h = n0 / 2;
        assert(n0 * np == 2 * (h * np)) by (nonlinear_arith)
            requires
                n0 == 2 * h,
        ;
        assert(false);
    }
    let rest = s[1] + radix() * (s[2] + radix() * (s[3] + radix() * (s[4] + radix() * s[5])));
    assert(radix() * rest == 2 * (0x8000_0000_0000_0000 * rest)) by (nonlinear_arith)
        requires
            radix() == 2 * 0x8000_0000_0000_0000,
    ;
}

} // verus!
