//! Little-endian multi-limb integers as mathematical values.
//!
//! A sequence of 64-bit limbs, least significant first, stands for the
//! natural number `s[0] + s[1]·2^64 + s[2]·2^128 + …`. Everything the
//! executable code proves about carries and borrows is stated over
//! [`limbs_value`], the value of a prefix of such a sequence.

use vstd::prelude::*;

verus! {

/// The radix of one limb, `2^64`.
pub open spec fn radix() -> nat {
    0x1_0000_0000_0000_0000
}

/// `radix()^k`, the weight of limb `k`.
pub open spec fn radix_pow(k: nat) -> nat
    decreases k,
{
    if k == 0 {
        1
    } else {
        radix() * radix_pow((k - 1) as nat)
    }
}

/// The value of the first `k` limbs of `s`, least significant limb first.
pub open spec fn limbs_value(s: Seq<u64>, k: nat) -> nat
    decreases k,
{
    if k == 0 {
        0
    } else {
        limbs_value(s, (k - 1) as nat) + (s[k - 1] as nat) * radix_pow((k - 1) as nat)
    }
}

/// Every weight is positive.
pub proof fn lemma_radix_pow_positive(k: nat)
    ensures
        radix_pow(k) > 0,
    decreases k,
{
    if k > 0 {
        lemma_radix_pow_positive((k - 1) as nat);
        assert(radix() * radix_pow((k - 1) as nat) > 0) by (nonlinear_arith)
            requires
                radix() > 0,
                radix_pow((k - 1) as nat) > 0,
        ;
    }
}

/// Weights multiply: `radix^(a+b) = radix^a · radix^b`.
pub proof fn lemma_radix_pow_add(a: nat, b: nat)
    ensures
        radix_pow(a + b) == radix_pow(a) * radix_pow(b),
    decreases a,
{
    if a == 0 {
        assert(radix_pow(0) == 1);
        assert(1 * radix_pow(b) == radix_pow(b)) by (nonlinear_arith);
    } else {
        lemma_radix_pow_add((a - 1) as nat, b);
        let pa = radix_pow((a - 1) as nat);
        let pb = radix_pow(b);
        assert(radix_pow(a + b) == radix() * radix_pow((a - 1 + b) as nat));
        assert(radix() * (pa * pb) == (radix() * pa) * pb) by (nonlinear_arith);
    }
}

/// `k` limbs hold a value below `radix^k`.
pub proof fn lemma_value_bound(s: Seq<u64>, k: nat)
    ensures
        limbs_value(s, k) < radix_pow(k),
    decreases k,
{
    if k > 0 {
        let j = (k - 1) as nat;
        lemma_value_bound(s, j);
        let p = radix_pow(j);
        let d = s[k - 1] as nat;
        assert(d * p + p <= radix() * p) by (nonlinear_arith)
            requires
                d + 1 <= radix(),
                p >= 0,
        ;
    }
}

/// The value of a prefix depends on the limbs of that prefix only.
pub proof fn lemma_value_agree(s: Seq<u64>, t: Seq<u64>, k: nat)
    requires
        forall|i: int| 0 <= i < k ==> s[i] == t[i],
    ensures
        limbs_value(s, k) == limbs_value(t, k),
    decreases k,
{
    if k > 0 {
        lemma_value_agree(s, t, (k - 1) as nat);
    }
}

/// A prefix of zero limbs has value zero.
pub proof fn lemma_value_zero(s: Seq<u64>, k: nat)
    requires
        forall|i: int| 0 <= i < k ==> s[i] == 0,
    ensures
        limbs_value(s, k) == 0,
    decreases k,
{
    if k > 0 {
        lemma_value_zero(s, (k - 1) as nat);
        assert(0 * radix_pow((k - 1) as nat) == 0) by (nonlinear_arith);
    }
}

/// A value is at least the contribution of any one of its limbs.
pub proof fn lemma_value_lower(s: Seq<u64>, i: nat, k: nat)
    requires
        i < k,
    ensures
        (s[i as int] as nat) * radix_pow(i) <= limbs_value(s, k),
    decreases k,
{
    let j = (k - 1) as nat;
    if i < j {
        lemma_value_lower(s, i, j);
    }
}

/// Replacing limb `i` by `x` moves the value by `(x - s[i]) · radix^i`.
pub proof fn lemma_value_update(s: Seq<u64>, i: nat, x: u64, k: nat)
    requires
        i < k <= s.len(),
    ensures
        limbs_value(s.update(i as int, x), k) + (s[i as int] as nat) * radix_pow(i) == limbs_value(
            s,
            k,
        ) + (x as nat) * radix_pow(i),
    decreases k,
{
    let t = s.update(i as int, x);
    let j = (k - 1) as nat;
    if i == j {
        lemma_value_agree(s, t, j);
    } else {
        lemma_value_update(s, i, x, j);
    }
}

/// A value of `k + m` limbs is its low `k` limbs plus `radix^k` times the
/// `m` limbs above them.
pub proof fn lemma_value_split(s: Seq<u64>, k: nat, m: nat)
    requires
        k + m <= s.len(),
    ensures
        limbs_value(s, k + m) == limbs_value(s, k) + radix_pow(k) * limbs_value(s.skip(k as int), m),
    decreases m,
{
    let hi = s.skip(k as int);
    if m == 0 {
        assert(radix_pow(k) * 0 == 0) by (nonlinear_arith);
    } else {
        let j = (m - 1) as nat;
        lemma_value_split(s, k, j);
        lemma_radix_pow_add(k, j);
        assert(hi[j as int] == s[(k + j) as int]);
        let pk = radix_pow(k);
        let pj = radix_pow(j);
        let d = s[(k + j) as int] as nat;
        let v = limbs_value(hi, j);
        assert(pk * (v + d * pj) == pk * v + d * (pk * pj)) by (nonlinear_arith);
    }
}

/// Two sequences whose first `k` limbs have the same value have the same
/// first `k` limbs: the representation is unique.
pub proof fn lemma_value_injective(s: Seq<u64>, t: Seq<u64>, k: nat)
    requires
        limbs_value(s, k) == limbs_value(t, k),
    ensures
        forall|i: int| 0 <= i < k ==> s[i] == t[i],
    decreases k,
{
    if k > 0 {
        let j = (k - 1) as nat;
        let p = radix_pow(j);
        let x = s[k - 1] as nat;
        let y = t[k - 1] as nat;
        lemma_value_bound(s, j);
        lemma_value_bound(t, j);
        lemma_radix_pow_positive(j);
        if x != y {
            if x < y {
                assert(x * p + p <= y * p) by (nonlinear_arith)
                    requires
                        x + 1 <= y,
                        p >= 0,
                ;
            } else {
                assert(y * p + p <= x * p) by (nonlinear_arith)
                    requires
                        y + 1 <= x,
                        p >= 0,
                ;
            }
            assert(false);
        }
        lemma_value_injective(s, t, j);
    }
}

/// One limb of a carry chain. If the low `i` limbs satisfy
/// `s + cin·radix^i = a + b`, and limb `i` satisfies
/// `s[i] + cout·radix = a[i] + b[i] + cin`, then the low `i + 1` limbs satisfy
/// `s + cout·radix^(i+1) = a + b`.
///
/// Read with `s` as the sum this is ripple-carry addition; read with `s` as
/// the minuend and `a` as the difference it is ripple-borrow subtraction.
pub proof fn lemma_chain_step(s: Seq<u64>, a: Seq<u64>, b: Seq<u64>, i: nat, cin: nat, cout: nat)
    requires
        limbs_value(s, i) + cin * radix_pow(i) == limbs_value(a, i) + limbs_value(b, i),
        s[i as int] + cout * radix() == a[i as int] + b[i as int] + cin,
    ensures
        limbs_value(s, i + 1) + cout * radix_pow(i + 1) == limbs_value(a, i + 1) + limbs_value(
            b,
            i + 1,
        ),
{
    let p = radix_pow(i);
    let si = s[i as int] as nat;
    let ai = a[i as int] as nat;
    let bi = b[i as int] as nat;
    assert(radix_pow(i + 1) == radix() * p);
    assert(si * p + cout * (radix() * p) == ai * p + bi * p + cin * p) by (nonlinear_arith)
        requires
            si + cout * radix() == ai + bi + cin,
    ;
}

/// The weights of the first seven limbs, as numbers.
pub proof fn lemma_radix_pow_values()
    ensures
        radix_pow(0) == 1,
        radix_pow(1) == 0x1_0000_0000_0000_0000nat,
        radix_pow(2) == 0x1_0000_0000_0000_0000_0000_0000_0000_0000nat,
        radix_pow(3) == 0x1_0000_0000_0000_0000_0000_0000_0000_0000_0000_0000_0000_0000nat,
        radix_pow(4) == 0x1_0000_0000_0000_0000_0000_0000_0000_0000_0000_0000_0000_0000_0000_0000_0000_0000nat,
        radix_pow(5) == 0x1_0000_0000_0000_0000_0000_0000_0000_0000_0000_0000_0000_0000_0000_0000_0000_0000_0000_0000_0000_0000nat,
        radix_pow(6) == 0x1_0000_0000_0000_0000_0000_0000_0000_0000_0000_0000_0000_0000_0000_0000_0000_0000_0000_0000_0000_0000_0000_0000_0000_0000nat,
{
    assert(radix_pow(0) == 1);
    assert(radix_pow(1) == radix() * radix_pow(0));
    assert(radix_pow(2) == radix() * radix_pow(1));
    assert(radix_pow(3) == radix() * radix_pow(2));
    assert(radix_pow(4) == radix() * radix_pow(3));
    assert(radix_pow(5) == radix() * radix_pow(4));
    assert(radix_pow(6) == radix() * radix_pow(5));
}

/// Six limbs written out: Horner's scheme over the radix.
pub proof fn lemma_value_six(s: Seq<u64>)
    requires
        s.len() >= 6,
    ensures
        limbs_value(s, 6) == s[0] + radix() * (s[1] + radix() * (s[2] + radix() * (s[3] + radix()
            * (s[4] + radix() * s[5])))),
{
    lemma_radix_pow_values();
    assert(limbs_value(s, 0) == 0);
    assert(limbs_value(s, 1) == limbs_value(s, 0) + (s[0] as nat) * radix_pow(0));
    assert(limbs_value(s, 2) == limbs_value(s, 1) + (s[1] as nat) * radix_pow(1));
    assert(limbs_value(s, 3) == limbs_value(s, 2) + (s[2] as nat) * radix_pow(2));
    assert(limbs_value(s, 4) == limbs_value(s, 3) + (s[3] as nat) * radix_pow(3));
    assert(limbs_value(s, 5) == limbs_value(s, 4) + (s[4] as nat) * radix_pow(4));
    assert(limbs_value(s, 6) == limbs_value(s, 5) + (s[5] as nat) * radix_pow(5));
}

} // verus!
