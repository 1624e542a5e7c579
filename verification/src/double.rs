//! Double-precision numbers, held as their bit patterns.
use crate::float_bits::{double_is_nan, double_less, double_lt, is_nan};
use crate::ieee::{is_infinite, lemma_format, negative, units, whole_units};
use crate::soft_float::DOUBLE;
use vstd::arithmetic::power2::pow2;
use vstd::prelude::*;

verus! {

/// One in double precision.
pub const DOUBLE_ONE: u64 = 0x3ff0_0000_0000_0000;

/// The larger of two; what is no number counts for nothing.
pub open spec fn larger(a: u64, b: u64) -> u64 {
    if double_is_nan(a) || double_less(a, b) {
        b
    } else {
        a
    }
}

/// The smaller of two; what is no number counts for nothing.
pub open spec fn smaller(a: u64, b: u64) -> u64 {
    if double_is_nan(a) || double_less(b, a) {
        b
    } else {
        a
    }
}

/// The integer part, brought into the range from zero to `cap`; zero where there is
/// no number.
#[verifier::opaque]
pub open spec fn whole(a: u64, cap: nat) -> nat {
    let n = units(DOUBLE as nat, a as nat) / pow2(1074);
    if double_is_nan(a) || negative(DOUBLE as nat, a as nat) {
        0
    } else if is_infinite(DOUBLE as nat, a as nat) || n > cap {
        cap
    } else {
        n
    }
}

/// The larger of two numbers.
pub fn larger_of(a: u64, b: u64) -> (r: u64)
    ensures
        r == larger(a, b),
{
    if is_nan(a) || double_lt(a, b) {
        b
    } else {
        a
    }
}

/// The smaller of two numbers.
pub fn smaller_of(a: u64, b: u64) -> (r: u64)
    ensures
        r == smaller(a, b),
{
    if is_nan(a) || double_lt(b, a) {
        b
    } else {
        a
    }
}

/// The integer part, brought into the range from zero to `cap`.
pub fn whole_of(a: u64, cap: u64) -> (r: u64)
    ensures
        r == whole(a, cap as nat),
        r <= cap,
{
    proof {
        reveal(whole);
        lemma_format(DOUBLE as nat);
    }
    if a > 0x7ff0_0000_0000_0000 {
        0
    } else if a == 0x7ff0_0000_0000_0000 {
        cap
    } else {
        whole_units(DOUBLE, a, cap)
    }
}

} // verus!
