//! Scalar arithmetic on IEEE-754 binary32 bit patterns.
//!
//! A matrix cell is the `u32` bit pattern of a binary32 number, so that all
//! structural reasoning in the library is exact. The two arithmetic
//! operations the kernel needs — addition and multiplication — are computed
//! in software by `rustc_apfloat`, a deterministic IEEE-754 implementation,
//! behind trusted wrappers; their results are named by uninterpreted
//! functions of the operand bits.

use rustc_apfloat::Float;
use vstd::prelude::*;

verus! {

/// The bit pattern of the IEEE-754 binary32 sum of two values given by
/// their bit patterns, rounding to nearest, ties to even.
pub uninterp spec fn add_bits(a: u32, b: u32) -> u32;

/// The bit pattern of the IEEE-754 binary32 product of two values given by
/// their bit patterns, rounding to nearest, ties to even.
pub uninterp spec fn mul_bits(a: u32, b: u32) -> u32;

/// Adds two cell values.
///
/// Relies on `rustc_apfloat::ieee::Single`'s `Add` impl (`IeeeFloat`
/// addition, round to nearest, ties to even): a pure, deterministic
/// function of the operand bit patterns.
#[verifier::external_body]
pub(crate) fn add_value(a: u32, b: u32) -> (r: u32)
    ensures
        r == add_bits(a, b),
{
    let x = rustc_apfloat::ieee::Single::from_bits(a as u128);
    let y = rustc_apfloat::ieee::Single::from_bits(b as u128);
    (x + y).value.to_bits() as u32
}

/// Multiplies two cell values.
///
/// Relies on `rustc_apfloat::ieee::Single`'s `Mul` impl (`IeeeFloat`
/// multiplication, round to nearest, ties to even): a pure, deterministic
/// function of the operand bit patterns.
#[verifier::external_body]
pub(crate) fn mul_value(a: u32, b: u32) -> (r: u32)
    ensures
        r == mul_bits(a, b),
{
    let x = rustc_apfloat::ieee::Single::from_bits(a as u128);
    let y = rustc_apfloat::ieee::Single::from_bits(b as u128);
    (x * y).value.to_bits() as u32
}

} // verus!
