//! Arithmetic in the base field of the BLS12-381 curve, on 384-bit values
//! in six 64-bit limbs: modular addition and subtraction, Montgomery
//! multiplication, and the conversions into and out of Montgomery form.
//!
//! Every function is total on six-limb operands and is specified by the
//! mathematics in [`field`]: on canonical operands, those below the prime,
//! it returns the field operation's result. The selections that depend on
//! the operands are made by masks, so that no branch is taken on them.
//!
//! - [`arith`]: the field element type and the arithmetic on it.
//! - [`backend`]: the two implementations of multiplication behind one
//!   interface.
//! - [`field`]: the prime, the Montgomery radix and the field operations.
//! - [`laws`]: what holds between the operations.
//! - [`limbs`]: limb sequences as natural numbers.
//! - [`montgomery`]: why operand scanning computes a Montgomery product.
//! - [`word`]: single-limb operations.
//! - [`chain`]: a thousand chained operations, as regression vectors.
//! - [`reference`]: the same chain in arbitrary-precision arithmetic.

pub mod arith;
pub mod backend;
pub mod chain;
pub mod field;
pub mod laws;
pub mod limbs;
pub mod montgomery;
pub mod reference;
pub mod word;
