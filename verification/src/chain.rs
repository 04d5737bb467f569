//! Chained operations: a thousand rounds of one operation, each round
//! feeding its result and its first operand to the next. They serve as
//! regression vectors and as workloads of measurable length.

use crate::arith::{fe_add, fe_mont_mul, fe_sub, W6x64};
use crate::field::{canonical, field_add, field_sub, mont_product};
use vstd::prelude::*;

verus! {

/// The pair `(xx, yy)` after `rounds` rounds of
/// `result = op(xx, yy); yy = xx; xx = result`, started from `(x, y)`.
pub open spec fn chain(op: spec_fn(nat, nat) -> nat, x: nat, y: nat, rounds: nat) -> (nat, nat)
    decreases rounds,
{
    if rounds == 0 {
        (x, y)
    } else {
        let (xx, yy) = chain(op, x, y, (rounds - 1) as nat);
        (op(xx, yy), xx)
    }
}

/// A thousand chained Montgomery multiplications, started from `(x, y)`.
pub fn mul_rust(x: &W6x64, y: &W6x64) -> (result: W6x64)
    ensures
        canonical(x@) && canonical(y@) ==> result@ == chain(
            |p: nat, q: nat| mont_product(p, q),
            x@,
            y@,
            1000,
        ).0,
{
    let ghost op = |p: nat, q: nat| mont_product(p, q);
    let mut xx = x.clone();
    let mut yy = y.clone();
    let mut result = W6x64::default();
    for i in 0..1_000
        invariant
            forall|p: nat, q: nat| #[trigger] op(p, q) == mont_product(p, q),
            canonical(x@) && canonical(y@) ==> canonical(xx@) && canonical(yy@) && (xx@, yy@)
                == chain(op, x@, y@, i as nat),
            i > 0 ==> result == xx,
    {
        fe_mont_mul(&mut result, &xx, &yy);
        yy = xx;
        xx = result;
    }
    result
}

/// A thousand chained additions, started from `(x, y)`.
pub fn add_rust(x: &W6x64, y: &W6x64) -> (result: W6x64)
    ensures
        canonical(x@) && canonical(y@) ==> result@ == chain(
            |p: nat, q: nat| field_add(p, q),
            x@,
            y@,
            1000,
        ).0,
{
    let ghost op = |p: nat, q: nat| field_add(p, q);
    let mut xx = x.clone();
    let mut yy = y.clone();
    let mut result = W6x64::default();
    for i in 0..1_000
        invariant
            forall|p: nat, q: nat| #[trigger] op(p, q) == field_add(p, q),
            canonical(x@) && canonical(y@) ==> canonical(xx@) && canonical(yy@) && (xx@, yy@)
                == chain(op, x@, y@, i as nat),
            i > 0 ==> result == xx,
    {
        fe_add(&mut result, &xx, &yy);
        yy = xx;
        xx = result;
    }
    result
}

/// A thousand chained subtractions, started from `(x, y)`.
pub fn sub_rust(x: &W6x64, y: &W6x64) -> (result: W6x64)
    ensures
        canonical(x@) && canonical(y@) ==> result@ == chain(
            |p: nat, q: nat| field_sub(p, q),
            x@,
            y@,
            1000,
        ).0,
{
    let ghost op = |p: nat, q: nat| field_sub(p, q);
    let mut xx = x.clone();
    let mut yy = y.clone();
    let mut result = W6x64::default();
    for i in 0..1_000
        invariant
            forall|p: nat, q: nat| #[trigger] op(p, q) == field_sub(p, q),
            canonical(x@) && canonical(y@) ==> canonical(xx@) && canonical(yy@) && (xx@, yy@)
                == chain(op, x@, y@, i as nat),
            i > 0 ==> result == xx,
    {
        fe_sub(&mut result, &xx, &yy);
        yy = xx;
        xx = result;
    }
    result
}

} // verus!
