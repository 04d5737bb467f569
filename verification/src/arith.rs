//! Six-limb field elements and the arithmetic on them.
//!
//! Each operation writes its result through a mutable reference and reads
//! its operands through shared ones, so the result is never one of the
//! operands: the borrow rules keep them apart. What the result held before
//! the call does not matter.
//!
//! Operands are meant to be canonical, that is below the prime. Nothing
//! checks this, and no operation fails on other operands: addition and
//! subtraction return what [`wrapped_add`] and [`wrapped_sub`] say, and the
//! multiplications return some six limbs of no stated meaning.

use crate::field::{
    canonical, field_add, field_sub, from_mont_form, lemma_lift, lemma_mont_product_unique,
    lemma_project, lemma_radix_inverse, lemma_reduce_difference, lemma_reduce_once, modulus,
    mont_product, radix_squared, to_mont_form,
};
use crate::limbs::{
    lemma_chain_step, lemma_radix_pow_values, lemma_value_agree, lemma_value_bound,
    lemma_value_injective, lemma_value_six, lemma_value_split, lemma_value_zero, limbs_value,
    radix, radix_pow,
};
use crate::montgomery::{
    carry_added, is_mont_product, is_reduction_constant, lemma_reduce_congruent,
    lemma_reduce_digit, lemma_round, lemma_row_start, lemma_row_step, mont_radix, reducible,
    round_state, row_result,
};
use crate::word::{
    lemma_fold_difference, lemma_mask_and, lemma_mask_select, lemma_mul_add_fits,
    lemma_wide_halves,
};
use vstd::arithmetic::div_mod::lemma_fundamental_div_mod_converse;
use vstd::prelude::*;

verus! {

/// A 384-bit unsigned integer in six 64-bit limbs, from least significant
/// `v[0]` to most significant `v[5]`.
///
/// The same representation serves a residue in normal form and one in
/// Montgomery form; nothing in the type tells them apart.
#[derive(Clone, Copy, Debug)]
pub struct W6x64 {
    pub v: [u64; 6],
}

impl PartialEq for W6x64 {
    /// Limb-by-limb equality. It stops at the first difference, so its
    /// running time depends on the operands.
    fn eq(&self, other: &Self) -> (r: bool) {
        self.v[0] == other.v[0] && self.v[1] == other.v[1] && self.v[2] == other.v[2]
            && self.v[3] == other.v[3] && self.v[4] == other.v[4] && self.v[5] == other.v[5]
    }
}

impl vstd::std_specs::cmp::PartialEqSpecImpl for W6x64 {
    open spec fn obeys_eq_spec() -> bool {
        true
    }

    open spec fn eq_spec(&self, other: &Self) -> bool {
        self.v[0] == other.v[0] && self.v[1] == other.v[1] && self.v[2] == other.v[2]
            && self.v[3] == other.v[3] && self.v[4] == other.v[4] && self.v[5] == other.v[5]
    }
}

impl View for W6x64 {
    type V = nat;

    /// The integer that the six limbs stand for.
    open spec fn view(&self) -> nat {
        limbs_value(self.v@, 6)
    }
}

impl W6x64 {
    /// Equality in constant time: every limb of both operands is read and
    /// folded into one word before anything is compared, so the running
    /// time does not depend on where the operands differ.
    pub fn ct_eq(&self, other: &W6x64) -> (r: bool)
        ensures
            r == (self@ == other@),
            r == (*self == *other),
    {
        let mut diff = 0_u64;
        for i in 0..6
            invariant
                diff == 0 <==> (forall|k: int| 0 <= k < i ==> self.v@[k] == other.v@[k]),
        {
            proof {
                lemma_fold_difference(diff, self.v[i as int], other.v[i as int]);
            }
            diff = diff | (self.v[i] ^ other.v[i]);
        }
        proof {
            if diff == 0 {
                lemma_value_agree(self.v@, other.v@, 6);
                assert(self.v =~= other.v);
            }
            if self@ == other@ {
                lemma_value_injective(self.v@, other.v@, 6);
            }
        }
        diff == 0
    }

    /// Whether the value is canonical, that is below the prime: whether
    /// subtracting the prime borrows out of the top limb. All six limbs are
    /// gone through whatever they hold.
    pub fn is_canonical(&self) -> (r: bool)
        ensures
            r == canonical(self@),
    {
        let mut borrow = false;
        let ghost mut trial: Seq<u64> = Seq::empty();
        for i in 0..6
            invariant
                trial.len() == i,
                limbs_value(self.v@, i as nat) + (if borrow { 1nat } else { 0nat }) * radix_pow(
                    i as nat,
                ) == limbs_value(trial, i as nat) + limbs_value(N@, i as nat),
        {
            let ghost before = trial;
            let ghost bin = if borrow { 1nat } else { 0nat };
            let (diff, borrow_t) = self.v[i].overflowing_sub(
                N[i].wrapping_add(if borrow { 1 } else { 0 }),
            );
            borrow = borrow_t;
            proof {
                trial = trial.push(diff);
                lemma_value_agree(before, trial, i as nat);
                lemma_chain_step(
                    self.v@,
                    trial,
                    N@,
                    i as nat,
                    bin,
                    if borrow { 1nat } else { 0nat },
                );
            }
        }
        proof {
            lemma_modulus_limbs();
            lemma_radix_inverse();
            lemma_value_bound(self.v@, 6);
            lemma_value_bound(trial, 6);
        }
        borrow
    }
}

impl Default for W6x64 {
    fn default() -> (r: W6x64)
        ensures
            r@ == 0,
            forall|i: int| 0 <= i < 6 ==> r.v@[i] == 0,
    {
        let r = W6x64 { v: [0; 6] };
        proof {
            lemma_value_zero(r.v@, 6);
        }
        r
    }
}

/// The BLS12-381 field prime, least significant limb first.
pub const N: [u64; 6] = [
    0xb9fe_ffff_ffff_aaab, 0x1eab_fffe_b153_ffff, 0x6730_d2a0_f6b0_f624,
    0x6477_4b84_f385_12bf, 0x4b1b_a7b6_434b_acd7, 0x1a01_11ea_397f_e69a,
];

/// What [`fe_add`] returns on any two six-limb values: the sum with its
/// carry out of the top limb dropped, less the prime if that is not below it.
pub open spec fn wrapped_add(a: nat, b: nat) -> nat {
    let s = (a + b) % mont_radix();
    if s < modulus() {
        s
    } else {
        (s - modulus()) as nat
    }
}

/// The limbs of [`N`] spell the prime.
pub proof fn lemma_modulus_limbs()
    ensures
        limbs_value(N@, 6) == modulus(),
{
    lemma_value_six(N@);
}

/// Modular addition: `result = (a + b) mod N` for canonical `a` and `b`.
///
/// The selection between the raw sum and the sum less the prime is made by
/// a mask, not by a branch.
pub fn fe_add(result: &mut W6x64, a: &W6x64, b: &W6x64)
    ensures
        canonical(a@) && canonical(b@) ==> final(result)@ == field_add(a@, b@) && canonical(
            final(result)@,
        ),
        final(result)@ == wrapped_add(a@, b@),
{
    let mut sum = W6x64::default();
    let mut carry = false;
    for i in 0..6
        invariant
            limbs_value(sum.v@, i as nat) + (if carry { 1nat } else { 0nat }) * radix_pow(i as nat)
                == limbs_value(a.v@, i as nat) + limbs_value(b.v@, i as nat),
    {
        let ghost before = sum.v@;
        let ghost cin = if carry { 1nat } else { 0nat };
        let (sum1, carry1) = a.v[i].overflowing_add(b.v[i]);
        let (sum2, carry2) = sum1.overflowing_add(if carry { 1 } else { 0 });
        sum.v[i] = sum2;
        // At most one of the two additions carries, so `^` joins them as `|` would.
        carry = carry1 ^ carry2;
        proof {
            lemma_value_agree(before, sum.v@, i as nat);
            lemma_chain_step(sum.v@, a.v@, b.v@, i as nat, cin, if carry { 1nat } else { 0nat });
        }
    }

    let mut trial = W6x64::default();
    let mut borrow = false;
    for i in 0..6
        invariant
            limbs_value(sum.v@, i as nat) + (if borrow { 1nat } else { 0nat }) * radix_pow(i as nat)
                == limbs_value(trial.v@, i as nat) + limbs_value(N@, i as nat),
    {
        let ghost before = trial.v@;
        let ghost bin = if borrow { 1nat } else { 0nat };
        let (diff, borrow_t) = sum.v[i].overflowing_sub(
            N[i].wrapping_add(if borrow { 1 } else { 0 }),
        );
        trial.v[i] = diff;
        borrow = borrow_t;
        proof {
            lemma_value_agree(before, trial.v@, i as nat);
            lemma_chain_step(sum.v@, trial.v@, N@, i as nat, bin, if borrow { 1nat } else { 0nat });
        }
    }

    let select_sum = u64::from(borrow).wrapping_neg();
    let ghost chosen = if borrow { sum.v@ } else { trial.v@ };
    for i in 0..6
        invariant
            select_sum == (if borrow { 0xffff_ffff_ffff_ffffu64 } else { 0u64 }),
            chosen == (if borrow { sum.v@ } else { trial.v@ }),
            forall|k: int| 0 <= k < i ==> result.v@[k] == chosen[k],
    {
        proof {
            lemma_mask_select(select_sum, sum.v[i as int], trial.v[i as int]);
        }
        result.v[i] = (!select_sum & trial.v[i]) | (select_sum & sum.v[i]);
    }
    proof {
        lemma_value_agree(result.v@, chosen, 6);
        lemma_modulus_limbs();
        lemma_value_bound(sum.v@, 6);
        lemma_value_bound(trial.v@, 6);
        lemma_value_bound(a.v@, 6);
        lemma_value_bound(b.v@, 6);
        lemma_radix_inverse();
        // The sum, with the carry out of the top limb dropped.
        let c: int = if carry { 1 } else { 0 };
        lemma_fundamental_div_mod_converse(
            (a@ + b@) as int,
            mont_radix() as int,
            c,
            sum@ as int,
        );
        // The trial subtraction borrows exactly when the sum is below N.
        assert(borrow <==> sum@ < modulus());
        if canonical(a@) && canonical(b@) {
            lemma_reduce_once(a@ + b@, modulus());
        }
    }
}

/// `2^384 - N`, least significant limb first. Subtracting it from a six-limb
/// value is adding the prime modulo `2^384`.
const CORRECTION: [u64; 6] = [
    0x4601_0000_0000_5555, 0xe154_0001_4eac_0000, 0x98cf_2d5f_094f_09db,
    0x9b88_b47b_0c7a_ed40, 0xb4e4_5849_bcb4_5328, 0xe5fe_ee15_c680_1965,
];

/// What [`fe_sub`] returns on any two six-limb values: the difference where
/// there is one, and else the difference plus the prime, reduced modulo
/// `2^384`.
pub open spec fn wrapped_sub(a: nat, b: nat) -> nat {
    if a >= b {
        (a - b) as nat
    } else {
        ((a + modulus() + mont_radix() - b) % (mont_radix() as int)) as nat
    }
}

/// The limbs of the correction constant spell `2^384 - N`.
proof fn lemma_correction_limbs()
    ensures
        limbs_value(CORRECTION@, 6) + modulus() == mont_radix(),
{
    lemma_value_six(CORRECTION@);
    lemma_radix_pow_values();
}

/// Modular subtraction: `result = (a - b) mod N` for canonical `a` and `b`.
///
/// A borrow out of the top limb is folded back by subtracting `2^384 - N`
/// under a mask derived from that borrow, not by a branch.
pub fn fe_sub(result: &mut W6x64, a: &W6x64, b: &W6x64)
    ensures
        canonical(a@) && canonical(b@) ==> final(result)@ == field_sub(a@, b@) && canonical(
            final(result)@,
        ),
        final(result)@ == wrapped_sub(a@, b@),
{
    let mut diff = W6x64::default();
    let mut borrow_diff = false;
    for i in 0..6
        invariant
            limbs_value(a.v@, i as nat) + (if borrow_diff { 1nat } else { 0nat }) * radix_pow(
                i as nat,
            ) == limbs_value(diff.v@, i as nat) + limbs_value(b.v@, i as nat),
    {
        let ghost before = diff.v@;
        let ghost bin = if borrow_diff { 1nat } else { 0nat };
        let (diff1, borrow1) = a.v[i].overflowing_sub(b.v[i]);
        let (diff2, borrow2) = diff1.overflowing_sub(if borrow_diff { 1 } else { 0 });
        diff.v[i] = diff2;
        // At most one of the two subtractions borrows, so `^` joins them as `|` would.
        borrow_diff = borrow1 ^ borrow2;
        proof {
            lemma_value_agree(before, diff.v@, i as nat);
            lemma_chain_step(
                a.v@,
                diff.v@,
                b.v@,
                i as nat,
                bin,
                if borrow_diff { 1nat } else { 0nat },
            );
        }
    }

    let mask = u64::from(borrow_diff).wrapping_neg();
    let mut borrow_fix = false;
    let ghost fix: Seq<u64> = if borrow_diff { CORRECTION@ } else { Seq::new(6, |k: int| 0u64) };
    for i in 0..6
        invariant
            mask == (if borrow_diff { 0xffff_ffff_ffff_ffffu64 } else { 0u64 }),
            fix == (if borrow_diff { CORRECTION@ } else { Seq::new(6, |k: int| 0u64) }),
            !borrow_diff ==> !borrow_fix,
            limbs_value(diff.v@, i as nat) + (if borrow_fix { 1nat } else { 0nat }) * radix_pow(
                i as nat,
            ) == limbs_value(result.v@, i as nat) + limbs_value(fix, i as nat),
    {
        let ghost before = result.v@;
        let ghost bin = if borrow_fix { 1nat } else { 0nat };
        proof {
            lemma_mask_and(mask, (CORRECTION[i as int] + bin) as u64);
        }
        // The mask covers the correction limb together with the borrow coming
        // in. Under an all-zeros mask no borrow ever arises, so masking the
        // limb alone would give the same.
        let (diff1, borrow1) = diff.v[i].overflowing_sub(
            mask & (CORRECTION[i] + if borrow_fix { 1 } else { 0 }),
        );
        result.v[i] = diff1;
        borrow_fix = borrow1;
        proof {
            lemma_value_agree(before, result.v@, i as nat);
            lemma_chain_step(
                diff.v@,
                result.v@,
                fix,
                i as nat,
                bin,
                if borrow_fix { 1nat } else { 0nat },
            );
        }
    }
    proof {
        lemma_modulus_limbs();
        lemma_correction_limbs();
        lemma_radix_inverse();
        lemma_value_bound(a.v@, 6);
        lemma_value_bound(b.v@, 6);
        lemma_value_bound(diff.v@, 6);
        lemma_value_bound(result.v@, 6);
        // The first chain borrows exactly when a is below b.
        assert(borrow_diff <==> a@ < b@);
        if !borrow_diff {
            lemma_value_zero(fix, 6);
        } else {
            // The difference plus N, with the carry out of the top limb dropped.
            let k: int = if borrow_fix { 0 } else { 1 };
            lemma_fundamental_div_mod_converse(
                a@ + modulus() + mont_radix() - b@,
                mont_radix() as int,
                k,
                result@ as int,
            );
        }
        if canonical(a@) && canonical(b@) {
            lemma_reduce_difference(a@, b@, modulus());
        }
    }
}

/// `N'`, the negated inverse of the prime modulo `2^64`.
pub const N_PRIME: u64 = 0x89f3_fffc_fffc_fffd;

/// `N'` clears limbs of multiples of [`N`]: `N[0] · N' ≡ −1 (mod 2^64)`; and
/// the prime is small enough for six rounds of reduction.
pub proof fn lemma_n_prime()
    ensures
        is_reduction_constant(N[0], N_PRIME),
        reducible(modulus(), N[0], N_PRIME),
{
    lemma_radix_inverse();
}

/// Montgomery multiplication: `result = a · b · R⁻¹ mod N` for canonical `a`
/// and `b`, where `R = 2^384`. Given two residues in Montgomery form it
/// returns their product in Montgomery form.
///
/// Each row accumulates in one 128-bit word. The final choice between the
/// high limbs and the high limbs less the prime is made by a mask.
pub fn fe_mont_mul(result: &mut W6x64, a: &W6x64, b: &W6x64)
    ensures
        canonical(a@) && canonical(b@) ==> final(result)@ == mont_product(a@, b@) && canonical(
            final(result)@,
        ),
{
    let mut temp = [0_u64; 12];
    let ghost canon = canonical(a@) && canonical(b@);
    let ghost mut mm: nat = 0;
    proof {
        lemma_value_zero(temp@, 12);
        assert(a@ * limbs_value(b.v@, 0) + 0 * modulus() == 0) by (nonlinear_arith)
            requires
                limbs_value(b.v@, 0) == 0,
        ;
    }

    for i in 0..6
        invariant
            canon == (canonical(a@) && canonical(b@)),
            canon ==> round_state(temp@, a@, b.v@, mm, modulus(), i as nat),
    {
        let ghost row_start = temp@;
        let mut carry = 0_u64;
        proof {
            lemma_row_start(row_start, a.v@, b.v[i as int], i as nat);
        }
        for j in 0..6
            invariant
                i < 6,
                limbs_value(temp@, 12) + carry * radix_pow((i + j) as nat) == limbs_value(
                    row_start,
                    12,
                ) + limbs_value(a.v@, j as nat) * b.v@[i as int] * radix_pow(i as nat),
                forall|k: int| 0 <= k < 12 && !(i <= k < i + j) ==> temp@[k] == row_start[k],
        {
            proof {
                lemma_mul_add_fits(a.v[j as int], b.v[i as int], temp[(i + j) as int], carry);
            }
            let ghost before = temp@;
            let ghost carry_in = carry;
            let hilo = u128::from(a.v[j]) * u128::from(b.v[i]) + u128::from(temp[i + j])
                + u128::from(carry);
            temp[i + j] = #[verifier::truncate] (hilo as u64);
            carry = (hilo >> 64) as u64;
            proof {
                lemma_wide_halves(hilo);
                lemma_row_step(
                    before,
                    a.v@,
                    b.v[i as int],
                    i as nat,
                    j as nat,
                    carry_in,
                    temp[(i + j) as int],
                    carry,
                    limbs_value(row_start, 12),
                );
            }
        }
        let ghost row_done = temp@;
        let ghost carry_row = carry;
        temp[i + 6] = temp[i + 6].wrapping_add(carry);

        let m: u64 = temp[i].wrapping_mul(N_PRIME);

        let ghost red_start = temp@;
        let mut carry = 0_u64;
        proof {
            lemma_row_start(red_start, N@, m, i as nat);
        }
        for j in 0..6
            invariant
                i < 6,
                m as nat == (red_start[i as int] as nat * N_PRIME as nat) % radix(),
                limbs_value(temp@, 12) + carry * radix_pow((i + j) as nat) == limbs_value(
                    red_start,
                    12,
                ) + limbs_value(N@, j as nat) * m * radix_pow(i as nat),
                forall|k: int| 0 <= k < 12 && !(i <= k < i + j) ==> temp@[k] == red_start[k],
                j == 0 ==> carry == 0,
                j >= 1 ==> temp@[i as int] == 0,
        {
            proof {
                lemma_mul_add_fits(m, N[j as int], temp[(i + j) as int], carry);
            }
            let ghost before = temp@;
            let ghost carry_in = carry;
            let hilo = u128::from(m) * u128::from(N[j]) + u128::from(temp[i + j]) + u128::from(
                carry,
            );
            temp[i + j] = #[verifier::truncate] (hilo as u64);
            carry = (hilo >> 64) as u64;
            proof {
                lemma_wide_halves(hilo);
                lemma_row_step(
                    before,
                    N@,
                    m,
                    i as nat,
                    j as nat,
                    carry_in,
                    temp[(i + j) as int],
                    carry,
                    limbs_value(red_start, 12),
                );
                if j == 0 {
                    lemma_n_prime();
                    lemma_reduce_digit(before[i as int], N[0], N_PRIME, m, temp[i as int], carry);
                }
            }
        }
        let ghost red_done = temp@;
        temp[i + 6] = temp[i + 6].wrapping_add(carry);
        proof {
            if canon {
                lemma_modulus_limbs();
                lemma_radix_inverse();
                assert(row_result(row_start, row_done, a@, b.v@[i as int], i as nat, carry_row));
                assert(red_start =~= carry_added(row_done, i as nat, carry_row));
                assert(row_result(red_start, red_done, modulus(), m, i as nat, carry));
                assert(temp@ =~= carry_added(red_done, i as nat, carry));
                lemma_round(
                    row_start,
                    row_done,
                    red_start,
                    red_done,
                    temp@,
                    a@,
                    b.v@,
                    mm,
                    modulus(),
                    i as nat,
                    m,
                    carry_row,
                    carry,
                );
                mm = mm + (m as nat) * radix_pow(i as nat);
            }
        }
    }

    let mut dec = [0_u64; 6];

    let mut borrow = 0_u64;
    let ghost high = temp@.skip(6);
    for j in 0..6
        invariant
            high == temp@.skip(6),
            borrow <= 1,
            limbs_value(high, j as nat) + borrow * radix_pow(j as nat) == limbs_value(
                dec@,
                j as nat,
            ) + limbs_value(N@, j as nat),
    {
        let ghost before = dec@;
        let ghost bin = borrow as nat;
        let (diff, borrow_t0) = temp[j + 6].overflowing_sub(N[j] + borrow);
        dec[j] = diff;
        borrow = u64::from(borrow_t0);
        proof {
            lemma_value_agree(before, dec@, j as nat);
            lemma_chain_step(high, dec@, N@, j as nat, bin, borrow as nat);
        }
    }
    let select_temp = borrow.wrapping_neg();
    let ghost chosen = if borrow == 1 { high } else { dec@ };
    for j in 0..6
        invariant
            high == temp@.skip(6),
            select_temp == (if borrow == 1 { 0xffff_ffff_ffff_ffffu64 } else { 0u64 }),
            chosen == (if borrow == 1 { high } else { dec@ }),
            forall|k: int| 0 <= k < j ==> result.v@[k] == chosen[k],
    {
        proof {
            lemma_mask_select(select_temp, temp[(j + 6) as int], dec[j as int]);
        }
        result.v[j] = (select_temp & temp[j + 6]) | (!select_temp & dec[j]);
    }
    proof {
        lemma_value_agree(result.v@, chosen, 6);
        if canon {
            lemma_modulus_limbs();
            lemma_radix_inverse();
            lemma_value_split(temp@, 6, 6);
            lemma_value_zero(temp@, 6);
            lemma_value_bound(high, 6);
            lemma_value_bound(dec@, 6);
            let h = limbs_value(high, 6);
            assert(h * radix_pow(6) == a@ * b@ + mm * modulus()) by {
                assert(radix_pow(6) * h == h * radix_pow(6)) by (nonlinear_arith);
            }
            lemma_reduce_congruent(modulus(), a@, b@, mm, h, result@);
            lemma_mont_product_unique(a@, b@, result@);
        }
    }
}

/// Montgomery multiplication: `result = a · b · R⁻¹ mod N` for canonical `a`
/// and `b`, where `R = 2^384`. It returns what [`fe_mont_mul`] returns.
///
/// Each row keeps its partial sums in 64-bit words and counts the carries
/// of the two additions into the next carry. The final choice between the
/// high limbs and the high limbs less the prime is made by a mask.
pub fn mont_mul_384_rust(result: &mut W6x64, a: &W6x64, b: &W6x64)
    ensures
        canonical(a@) && canonical(b@) ==> final(result)@ == mont_product(a@, b@) && canonical(
            final(result)@,
        ),
{
    let mut temp = [0_u64; 12];
    let ghost canon = canonical(a@) && canonical(b@);
    let ghost mut mm: nat = 0;
    proof {
        lemma_value_zero(temp@, 12);
        assert(a@ * limbs_value(b.v@, 0) + 0 * modulus() == 0) by (nonlinear_arith)
            requires
                limbs_value(b.v@, 0) == 0,
        ;
    }

    for i in 0..6
        invariant
            canon == (canonical(a@) && canonical(b@)),
            canon ==> round_state(temp@, a@, b.v@, mm, modulus(), i as nat),
    {
        let ghost row_start = temp@;
        let mut carry = 0_u64;
        proof {
            lemma_row_start(row_start, a.v@, b.v[i as int], i as nat);
        }
        for j in 0..6
            invariant
                i < 6,
                limbs_value(temp@, 12) + carry * radix_pow((i + j) as nat) == limbs_value(
                    row_start,
                    12,
                ) + limbs_value(a.v@, j as nat) * b.v@[i as int] * radix_pow(i as nat),
                forall|k: int| 0 <= k < 12 && !(i <= k < i + j) ==> temp@[k] == row_start[k],
        {
            proof {
                lemma_mul_add_fits(a.v[j as int], b.v[i as int], temp[(i + j) as int], carry);
            }
            let ghost before = temp@;
            let ghost carry_in = carry;
            let hilo = u128::from(a.v[j]) * u128::from(b.v[i]);
            let (sum_t0, carry_t0) = (#[verifier::truncate] (hilo as u64)).overflowing_add(
                temp[i + j],
            );
            let (sum_t1, carry_t1) = sum_t0.overflowing_add(carry);
            temp[i + j] = sum_t1;
            proof {
                lemma_wide_halves(hilo);
            }
            carry = ((hilo >> 64) as u64) + u64::from(carry_t0) + u64::from(carry_t1);
            proof {
                lemma_row_step(
                    before,
                    a.v@,
                    b.v[i as int],
                    i as nat,
                    j as nat,
                    carry_in,
                    sum_t1,
                    carry,
                    limbs_value(row_start, 12),
                );
            }
        }
        let ghost row_done = temp@;
        let ghost carry_row = carry;
        temp[i + 6] = temp[i + 6].wrapping_add(carry);

        let m: u64 = temp[i].wrapping_mul(N_PRIME);

        let ghost red_start = temp@;
        let mut carry = 0_u64;
        proof {
            lemma_row_start(red_start, N@, m, i as nat);
        }
        for j in 0..6
            invariant
                i < 6,
                m as nat == (red_start[i as int] as nat * N_PRIME as nat) % radix(),
                limbs_value(temp@, 12) + carry * radix_pow((i + j) as nat) == limbs_value(
                    red_start,
                    12,
                ) + limbs_value(N@, j as nat) * m * radix_pow(i as nat),
                forall|k: int| 0 <= k < 12 && !(i <= k < i + j) ==> temp@[k] == red_start[k],
                j == 0 ==> carry == 0,
                j >= 1 ==> temp@[i as int] == 0,
        {
            proof {
                lemma_mul_add_fits(m, N[j as int], temp[(i + j) as int], carry);
            }
            let ghost before = temp@;
            let ghost carry_in = carry;
            let hilo = u128::from(m) * u128::from(N[j]);
            let (sum_t0, carry_t0) = (#[verifier::truncate] (hilo as u64)).overflowing_add(
                temp[i + j],
            );
            let (sum_t1, carry_t1) = sum_t0.overflowing_add(carry);
            temp[i + j] = sum_t1;
            proof {
                lemma_wide_halves(hilo);
            }
            carry = ((hilo >> 64) as u64) + u64::from(carry_t0) + u64::from(carry_t1);
            proof {
                lemma_row_step(
                    before,
                    N@,
                    m,
                    i as nat,
                    j as nat,
                    carry_in,
                    sum_t1,
                    carry,
                    limbs_value(red_start, 12),
                );
                if j == 0 {
                    lemma_n_prime();
                    lemma_reduce_digit(before[i as int], N[0], N_PRIME, m, sum_t1, carry);
                }
            }
        }
        let ghost red_done = temp@;
        temp[i + 6] = temp[i + 6].wrapping_add(carry);
        proof {
            if canon {
                lemma_modulus_limbs();
                lemma_radix_inverse();
                assert(row_result(row_start, row_done, a@, b.v@[i as int], i as nat, carry_row));
                assert(red_start =~= carry_added(row_done, i as nat, carry_row));
                assert(row_result(red_start, red_done, modulus(), m, i as nat, carry));
                assert(temp@ =~= carry_added(red_done, i as nat, carry));
                lemma_round(
                    row_start,
                    row_done,
                    red_start,
                    red_done,
                    temp@,
                    a@,
                    b.v@,
                    mm,
                    modulus(),
                    i as nat,
                    m,
                    carry_row,
                    carry,
                );
                mm = mm + (m as nat) * radix_pow(i as nat);
            }
        }
    }

    let mut dec = [0_u64; 6];

    let mut borrow = 0_u64;
    let ghost high = temp@.skip(6);
    for j in 0..6
        invariant
            high == temp@.skip(6),
            borrow <= 1,
            limbs_value(high, j as nat) + borrow * radix_pow(j as nat) == limbs_value(
                dec@,
                j as nat,
            ) + limbs_value(N@, j as nat),
    {
        let ghost before = dec@;
        let ghost bin = borrow as nat;
        let (diff, borrow_t0) = temp[j + 6].overflowing_sub(N[j] + borrow);
        dec[j] = diff;
        borrow = u64::from(borrow_t0);
        proof {
            lemma_value_agree(before, dec@, j as nat);
            lemma_chain_step(high, dec@, N@, j as nat, bin, borrow as nat);
        }
    }
    let select_temp = borrow.wrapping_neg();
    let ghost chosen = if borrow == 1 { high } else { dec@ };
    for j in 0..6
        invariant
            high == temp@.skip(6),
            select_temp == (if borrow == 1 { 0xffff_ffff_ffff_ffffu64 } else { 0u64 }),
            chosen == (if borrow == 1 { high } else { dec@ }),
            forall|k: int| 0 <= k < j ==> result.v@[k] == chosen[k],
    {
        proof {
            lemma_mask_select(select_temp, temp[(j + 6) as int], dec[j as int]);
        }
        result.v[j] = (select_temp & temp[j + 6]) | (!select_temp & dec[j]);
    }
    proof {
        lemma_value_agree(result.v@, chosen, 6);
        if canon {
            lemma_modulus_limbs();
            lemma_radix_inverse();
            lemma_value_split(temp@, 6, 6);
            lemma_value_zero(temp@, 6);
            lemma_value_bound(high, 6);
            lemma_value_bound(dec@, 6);
            let h = limbs_value(high, 6);
            assert(h * radix_pow(6) == a@ * b@ + mm * modulus()) by {
                assert(radix_pow(6) * h == h * radix_pow(6)) by (nonlinear_arith);
            }
            lemma_reduce_congruent(modulus(), a@, b@, mm, h, result@);
            lemma_mont_product_unique(a@, b@, result@);
        }
    }
}

/// Montgomery multiplication for a modulus given at run time: for a modulus
/// `n` below `2^383` with reduction constant `n_prime`, and operands below
/// `n`, `result` is the residue below `n` with `result · R ≡ a · b (mod n)`,
/// where `R = 2^384`.
///
/// The algorithm is that of [`mont_mul_384_rust`], with the modulus and its
/// constant read from the arguments. Only the final subtraction differs: it
/// takes the borrow in a step of its own, since a limb of a modulus that is
/// not known beforehand may be all ones.
pub fn mont_mul_384(result: &mut W6x64, a: &W6x64, b: &W6x64, n: &W6x64, n_prime: u64)
    ensures
        reducible(n@, n.v@[0], n_prime) && a@ < n@ && b@ < n@ ==> is_mont_product(
            final(result)@,
            a@,
            b@,
            n@,
        ),
{
    let mut temp = [0_u64; 12];
    let ghost ready = is_reduction_constant(n.v@[0], n_prime);
    let ghost canon = reducible(n@, n.v@[0], n_prime) && a@ < n@ && b@ < n@;
    let ghost mut mm: nat = 0;
    proof {
        lemma_value_zero(temp@, 12);
        assert(a@ * limbs_value(b.v@, 0) + 0 * n@ == 0) by (nonlinear_arith)
            requires
                limbs_value(b.v@, 0) == 0,
        ;
    }

    for i in 0..6
        invariant
            ready == is_reduction_constant(n.v@[0], n_prime),
            canon == (reducible(n@, n.v@[0], n_prime) && a@ < n@ && b@ < n@),
            canon ==> round_state(temp@, a@, b.v@, mm, n@, i as nat),
    {
        let ghost row_start = temp@;
        let mut carry = 0_u64;
        proof {
            lemma_row_start(row_start, a.v@, b.v[i as int], i as nat);
        }
        for j in 0..6
            invariant
                i < 6,
                limbs_value(temp@, 12) + carry * radix_pow((i + j) as nat) == limbs_value(
                    row_start,
                    12,
                ) + limbs_value(a.v@, j as nat) * b.v@[i as int] * radix_pow(i as nat),
                forall|k: int| 0 <= k < 12 && !(i <= k < i + j) ==> temp@[k] == row_start[k],
        {
            proof {
                lemma_mul_add_fits(a.v[j as int], b.v[i as int], temp[(i + j) as int], carry);
            }
            let ghost before = temp@;
            let ghost carry_in = carry;
            let hilo = u128::from(a.v[j]) * u128::from(b.v[i]);
            let (sum_t0, carry_t0) = (#[verifier::truncate] (hilo as u64)).overflowing_add(
                temp[i + j],
            );
            let (sum_t1, carry_t1) = sum_t0.overflowing_add(carry);
            temp[i + j] = sum_t1;
            proof {
                lemma_wide_halves(hilo);
            }
            carry = ((hilo >> 64) as u64) + u64::from(carry_t0) + u64::from(carry_t1);
            proof {
                lemma_row_step(
                    before,
                    a.v@,
                    b.v[i as int],
                    i as nat,
                    j as nat,
                    carry_in,
                    sum_t1,
                    carry,
                    limbs_value(row_start, 12),
                );
            }
        }
        let ghost row_done = temp@;
        let ghost carry_row = carry;
        temp[i + 6] = temp[i + 6].wrapping_add(carry);

        let m: u64 = temp[i].wrapping_mul(n_prime);

        let ghost red_start = temp@;
        let mut carry = 0_u64;
        proof {
            lemma_row_start(red_start, n.v@, m, i as nat);
        }
        for j in 0..6
            invariant
                i < 6,
                ready == is_reduction_constant(n.v@[0], n_prime),
                m as nat == (red_start[i as int] as nat * n_prime as nat) % radix(),
                limbs_value(temp@, 12) + carry * radix_pow((i + j) as nat) == limbs_value(
                    red_start,
                    12,
                ) + limbs_value(n.v@, j as nat) * m * radix_pow(i as nat),
                forall|k: int| 0 <= k < 12 && !(i <= k < i + j) ==> temp@[k] == red_start[k],
                j == 0 ==> carry == 0,
                ready && j >= 1 ==> temp@[i as int] == 0,
        {
            proof {
                lemma_mul_add_fits(m, n.v[j as int], temp[(i + j) as int], carry);
            }
            let ghost before = temp@;
            let ghost carry_in = carry;
            let hilo = u128::from(m) * u128::from(n.v[j]);
            let (sum_t0, carry_t0) = (#[verifier::truncate] (hilo as u64)).overflowing_add(
                temp[i + j],
            );
            let (sum_t1, carry_t1) = sum_t0.overflowing_add(carry);
            temp[i + j] = sum_t1;
            proof {
                lemma_wide_halves(hilo);
            }
            carry = ((hilo >> 64) as u64) + u64::from(carry_t0) + u64::from(carry_t1);
            proof {
                lemma_row_step(
                    before,
                    n.v@,
                    m,
                    i as nat,
                    j as nat,
                    carry_in,
                    sum_t1,
                    carry,
                    limbs_value(red_start, 12),
                );
                if ready && j == 0 {
                    lemma_reduce_digit(before[i as int], n.v[0], n_prime, m, sum_t1, carry);
                }
            }
        }
        let ghost red_done = temp@;
        temp[i + 6] = temp[i + 6].wrapping_add(carry);
        proof {
            if canon {
                assert(row_result(row_start, row_done, a@, b.v@[i as int], i as nat, carry_row));
                assert(red_start =~= carry_added(row_done, i as nat, carry_row));
                assert(row_result(red_start, red_done, n@, m, i as nat, carry));
                assert(temp@ =~= carry_added(red_done, i as nat, carry));
                lemma_round(
                    row_start,
                    row_done,
                    red_start,
                    red_done,
                    temp@,
                    a@,
                    b.v@,
                    mm,
                    n@,
                    i as nat,
                    m,
                    carry_row,
                    carry,
                );
                mm = mm + (m as nat) * radix_pow(i as nat);
            }
        }
    }

    let mut dec = [0_u64; 6];

    let mut borrow = false;
    let ghost high = temp@.skip(6);
    for j in 0..6
        invariant
            high == temp@.skip(6),
            limbs_value(high, j as nat) + (if borrow { 1nat } else { 0nat }) * radix_pow(j as nat)
                == limbs_value(dec@, j as nat) + limbs_value(n.v@, j as nat),
    {
        let ghost before = dec@;
        let ghost bin = if borrow { 1nat } else { 0nat };
        let (diff_t0, borrow_t0) = temp[j + 6].overflowing_sub(n.v[j]);
        let (diff_t1, borrow_t1) = diff_t0.overflowing_sub(u64::from(borrow));
        dec[j] = diff_t1;
        // At most one of the two subtractions borrows, so `^` joins them as `|` would.
        borrow = borrow_t0 ^ borrow_t1;
        proof {
            lemma_value_agree(before, dec@, j as nat);
            lemma_chain_step(high, dec@, n.v@, j as nat, bin, if borrow { 1nat } else { 0nat });
        }
    }
    let select_temp = u64::from(borrow).wrapping_neg();
    let ghost chosen = if borrow { high } else { dec@ };
    for j in 0..6
        invariant
            high == temp@.skip(6),
            select_temp == (if borrow { 0xffff_ffff_ffff_ffffu64 } else { 0u64 }),
            chosen == (if borrow { high } else { dec@ }),
            forall|k: int| 0 <= k < j ==> result.v@[k] == chosen[k],
    {
        proof {
            lemma_mask_select(select_temp, temp[(j + 6) as int], dec[j as int]);
        }
        result.v[j] = (select_temp & temp[j + 6]) | (!select_temp & dec[j]);
    }
    proof {
        lemma_value_agree(result.v@, chosen, 6);
        if canon {
            lemma_value_split(temp@, 6, 6);
            lemma_value_zero(temp@, 6);
            lemma_value_bound(high, 6);
            lemma_value_bound(dec@, 6);
            lemma_value_bound(n.v@, 6);
            let h = limbs_value(high, 6);
            assert(h * radix_pow(6) == a@ * b@ + mm * n@) by {
                assert(radix_pow(6) * h == h * radix_pow(6)) by (nonlinear_arith);
            }
            lemma_reduce_congruent(n@, a@, b@, mm, h, result@);
        }
    }
}

/// `R² mod N`, least significant limb first.
const R_SQUARED: [u64; 6] = [
    0xf4df_1f34_1c34_1746, 0x0a76_e6a6_09d1_04f1, 0x8de5_476c_4c95_b6d5,
    0x67eb_88a9_939d_83c0, 0x9a79_3e85_b519_952d, 0x1198_8fe5_92ca_e3aa,
];

/// The number one, least significant limb first.
const ONE: [u64; 6] = [
    0x0000_0000_0000_0001, 0x0000_0000_0000_0000, 0x0000_0000_0000_0000,
    0x0000_0000_0000_0000, 0x0000_0000_0000_0000, 0x0000_0000_0000_0000,
];

/// The limbs of the two conversion constants spell `R² mod N` and `1`.
proof fn lemma_conversion_limbs()
    ensures
        limbs_value(R_SQUARED@, 6) == radix_squared(),
        limbs_value(ONE@, 6) == 1,
{
    lemma_value_six(R_SQUARED@);
    lemma_value_six(ONE@);
}

/// Lifts a canonical residue into Montgomery form: `result = a · R mod N`,
/// computed as the Montgomery product of `a` and `R² mod N`.
pub fn fe_to_montgomery(result: &mut W6x64, a: &W6x64)
    ensures
        canonical(a@) ==> final(result)@ == to_mont_form(a@) && canonical(final(result)@),
{
    let r_squared = W6x64 { v: R_SQUARED };
    proof {
        lemma_conversion_limbs();
        lemma_radix_inverse();
        lemma_lift(a@);
    }
    mont_mul_384_rust(&mut *result, &a, &r_squared);
}

/// Projects a canonical residue out of Montgomery form:
/// `result = a · R⁻¹ mod N`, computed as the Montgomery product of `a` and
/// one.
pub fn fe_to_normal(result: &mut W6x64, a: &W6x64)
    ensures
        canonical(a@) ==> final(result)@ == from_mont_form(a@) && canonical(final(result)@),
{
    let one = W6x64 { v: ONE };
    proof {
        lemma_conversion_limbs();
        lemma_project(a@);
    }
    mont_mul_384_rust(&mut *result, &a, &one);
}

} // verus!
