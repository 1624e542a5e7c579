//! Single-precision numbers.
use crate::float_bits::{
    law_patterns_order_numbers, single_is_nan, single_less, single_lt, single_value,
};
use crate::ieee::{
    body, difference, difference_of, infinity, integer, integer_of, is_infinite,
    law_integer_is_exact, law_values_agree, law_zero_is_neutral, lemma_format, lemma_root_pattern,
    lemma_units_zero, lemma_zero_packed, negative, product, product_of, quotient, quotient_of,
    square_root, square_root_of, sum, sum_of, units, whole_units,
};
use crate::soft_float::SINGLE;
use vstd::arithmetic::power2::lemma_pow2_pos;
use vstd::arithmetic::power2::pow2;
use vstd::prelude::*;

verus! {

/// A single-precision number, held as its bit pattern.
#[derive(Debug, Clone, Copy, PartialEq, Eq, Structural)]
pub struct Single {
    pub bits: u32,
}

/// The number zero.
pub open spec fn zero() -> Single {
    Single { bits: 0 }
}

/// The number nearest to an integer.
#[verifier::opaque]
pub open spec fn of_int(n: nat) -> Single {
    Single { bits: integer(SINGLE as nat, n) as u32 }
}

/// `a + b`.
#[verifier::opaque]
pub open spec fn plus(a: Single, b: Single) -> Single {
    Single { bits: sum(SINGLE as nat, a.bits as nat, b.bits as nat) as u32 }
}

/// `a - b`.
#[verifier::opaque]
pub open spec fn minus(a: Single, b: Single) -> Single {
    Single { bits: difference(SINGLE as nat, a.bits as nat, b.bits as nat) as u32 }
}

/// `a * b`.
#[verifier::opaque]
pub open spec fn times(a: Single, b: Single) -> Single {
    Single { bits: product(SINGLE as nat, a.bits as nat, b.bits as nat) as u32 }
}

/// `a / b`.
#[verifier::opaque]
pub open spec fn over(a: Single, b: Single) -> Single {
    Single { bits: quotient(SINGLE as nat, a.bits as nat, b.bits as nat) as u32 }
}

/// The square root.
#[verifier::opaque]
pub open spec fn root(a: Single) -> Single {
    Single { bits: square_root(SINGLE as nat, a.bits as nat) as u32 }
}

/// The absolute value.
#[verifier::opaque]
pub open spec fn absolute(a: Single) -> Single {
    Single { bits: body(SINGLE as nat, a.bits as nat) as u32 }
}

/// `|a - b|`.
pub open spec fn distance(a: Single, b: Single) -> Single {
    absolute(minus(a, b))
}

/// The square of a number.
pub open spec fn square(a: Single) -> Single {
    times(a, a)
}

/// `a < b`; false where either is no number.
#[verifier::opaque]
pub open spec fn less(a: Single, b: Single) -> bool {
    single_less(a.bits, b.bits)
}

/// The larger of two; what is no number counts for nothing.
pub open spec fn larger(a: Single, b: Single) -> Single {
    if single_is_nan(a.bits) || less(a, b) {
        b
    } else {
        a
    }
}

/// The smaller of two; what is no number counts for nothing.
pub open spec fn smaller(a: Single, b: Single) -> Single {
    if single_is_nan(a.bits) || less(b, a) {
        b
    } else {
        a
    }
}

/// The fraction `n / d` of small integers.
pub open spec fn fraction(n: nat, d: nat) -> Single {
    over(of_int(n), of_int(d))
}

/// The integer part, brought into the range from zero to `cap`; zero where there is
/// no number.
#[verifier::opaque]
pub open spec fn whole(a: Single, cap: nat) -> nat {
    let n = units(SINGLE as nat, a.bits as nat) / pow2(149);
    if single_is_nan(a.bits) || negative(SINGLE as nat, a.bits as nat) {
        0
    } else if is_infinite(SINGLE as nat, a.bits as nat) || n > cap {
        cap
    } else {
        n
    }
}

impl Single {
    /// The number nearest to an integer.
    pub fn from_int(n: u64) -> (r: Single)
        ensures
            r == of_int(n as nat),
    {
        proof {
            reveal(of_int);
            lemma_format(SINGLE as nat);
        }
        Single { bits: integer_of(SINGLE, n) as u32 }
    }

    /// `self + other`.
    pub fn plus(self, other: Single) -> (r: Single)
        ensures
            r == plus(self, other),
    {
        proof {
            reveal(plus);
            lemma_format(SINGLE as nat);
        }
        Single { bits: sum_of(SINGLE, self.bits as u64, other.bits as u64) as u32 }
    }

    /// `self - other`.
    pub fn minus(self, other: Single) -> (r: Single)
        ensures
            r == minus(self, other),
    {
        proof {
            reveal(minus);
            lemma_format(SINGLE as nat);
        }
        Single { bits: difference_of(SINGLE, self.bits as u64, other.bits as u64) as u32 }
    }

    /// `self * other`.
    pub fn times(self, other: Single) -> (r: Single)
        ensures
            r == times(self, other),
    {
        proof {
            reveal(times);
            lemma_format(SINGLE as nat);
        }
        Single { bits: product_of(SINGLE, self.bits as u64, other.bits as u64) as u32 }
    }

    /// `self / other`.
    pub fn over(self, other: Single) -> (r: Single)
        ensures
            r == over(self, other),
    {
        proof {
            reveal(over);
            lemma_format(SINGLE as nat);
        }
        Single { bits: quotient_of(SINGLE, self.bits as u64, other.bits as u64) as u32 }
    }

    /// The square root.
    pub fn root(self) -> (r: Single)
        ensures
            r == root(self),
    {
        proof {
            reveal(root);
            lemma_format(SINGLE as nat);
        }
        Single { bits: square_root_of(SINGLE, self.bits as u64) as u32 }
    }

    /// The absolute value.
    pub fn absolute(self) -> (r: Single)
        ensures
            r == absolute(self),
    {
        proof {
            reveal(absolute);
            lemma_format(SINGLE as nat);
        }
        if self.bits >= 0x8000_0000 {
            Single { bits: self.bits - 0x8000_0000 }
        } else {
            self
        }
    }

    /// `|self - other|`.
    pub fn distance(self, other: Single) -> (r: Single)
        ensures
            r == distance(self, other),
    {
        self.minus(other).absolute()
    }

    /// The square of this number.
    pub fn square(self) -> (r: Single)
        ensures
            r == square(self),
    {
        self.times(self)
    }

    /// `self < other`.
    pub fn less(self, other: Single) -> (r: bool)
        ensures
            r == less(self, other),
    {
        proof {
            reveal(less);
        }
        single_lt(self.bits, other.bits)
    }

    /// The larger of two numbers.
    pub fn larger(self, other: Single) -> (r: Single)
        ensures
            r == larger(self, other),
    {
        if self.bits % 0x8000_0000 > 0x7f80_0000 || self.less(other) {
            other
        } else {
            self
        }
    }

    /// The smaller of two numbers.
    pub fn smaller(self, other: Single) -> (r: Single)
        ensures
            r == smaller(self, other),
    {
        if self.bits % 0x8000_0000 > 0x7f80_0000 || other.less(self) {
            other
        } else {
            self
        }
    }

    /// The fraction `n / d`.
    pub fn fraction(n: u64, d: u64) -> (r: Single)
        ensures
            r == fraction(n as nat, d as nat),
    {
        Single::from_int(n).over(Single::from_int(d))
    }

    /// The integer part, brought into the range from zero to `cap`.
    pub fn whole(self, cap: u64) -> (r: u64)
        ensures
            r == whole(self, cap as nat),
            r <= cap,
    {
        proof {
            reveal(whole);
            lemma_format(SINGLE as nat);
        }
        if self.bits >= 0x8000_0000 || self.bits > 0x7f80_0000 {
            0
        } else if self.bits == 0x7f80_0000 {
            cap
        } else {
            whole_units(SINGLE, self.bits as u64, cap)
        }
    }
}

/// An integer part stays within its range.
pub proof fn law_whole_is_capped(a: Single, cap: nat)
    ensures
        whole(a, cap) <= cap,
{
    reveal(whole);
}

/// The distance of a number from itself is zero; from what is no finite number there
/// is none.
pub proof fn law_distance_to_itself(a: Single)
    ensures
        single_is_nan(distance(a, a).bits) || single_value(distance(a, a).bits) == 0,
{
    let half = SINGLE as nat;
    reveal(minus);
    reveal(absolute);
    lemma_format(half);
    if body(half, a.bits as nat) < infinity(half) {
        law_zero_is_neutral(half, a.bits as nat);
    }
    law_values_agree(0, distance(a, a).bits);
    assert(half / 2 == 0x40_0000);
}

/// A square root is not negative, nor is its double.
pub proof fn law_root_is_not_negative(a: Single)
    ensures
        single_is_nan(root(a).bits) || single_value(root(a).bits) >= 0,
        single_is_nan(times(of_int(2), root(a)).bits) || single_value(
            times(of_int(2), root(a)).bits,
        ) >= 0,
{
    let half = SINGLE as nat;
    reveal(root);
    reveal(times);
    reveal(of_int);
    lemma_format(half);
    let r = root(a).bits;
    let d = times(of_int(2), root(a)).bits;
    law_values_agree(0, r);
    law_values_agree(0, d);
    lemma_root_pattern(half, a.bits as nat);
    law_integer_is_exact(half, 2);
    lemma_units_zero(half, r as nat);
    if negative(half, r as nat) {
        let u = units(half, integer(half, 2));
        assert(u * 0 == 0);
        lemma_zero_packed(half, true);
    }
}

/// The integer part of the larger of two numbers is at least that of either, as far as
/// it is a number.
pub proof fn law_whole_of_larger(a: Single, b: Single, cap: nat)
    requires
        !single_is_nan(b.bits),
    ensures
        whole(larger(a, b), cap) >= whole(b, cap),
{
    let half = SINGLE as nat;
    reveal(whole);
    reveal(less);
    lemma_format(half);
    law_values_agree(0, a.bits);
    law_values_agree(0, b.bits);
    lemma_pow2_pos(149);
    let u = units(half, a.bits as nat);
    let v = units(half, b.bits as nat);
    if !single_is_nan(a.bits) && !less(a, b) {
        if !negative(half, b.bits as nat) {
            if negative(half, a.bits as nat) {
                assert(u == 0 && v == 0);
                lemma_units_zero(half, b.bits as nat);
                assert(0nat / pow2(149) == 0) by {
                    vstd::arithmetic::div_mod::lemma_div_basics_1(pow2(149) as int);
                }
            } else {
                assert(u >= v);
                vstd::arithmetic::div_mod::lemma_div_is_ordered(
                    v as int,
                    u as int,
                    pow2(149) as int,
                );
                if is_infinite(half, b.bits as nat) {
                    law_patterns_order_numbers(a.bits, b.bits, 0, 0);
                }
            }
        }
    }
}

/// The integer part of a small integer is the integer.
pub proof fn law_whole_of_int(n: nat, cap: nat)
    requires
        n < 0x100_0000,
    ensures
        whole(of_int(n), cap) == if n > cap {
            cap
        } else {
            n
        },
        !single_is_nan(of_int(n).bits),
{
    let half = SINGLE as nat;
    reveal(whole);
    reveal(of_int);
    lemma_format(half);
    law_integer_is_exact(half, n);
    law_values_agree(0, of_int(n).bits);
    lemma_pow2_pos(149);
    vstd::arithmetic::div_mod::lemma_div_multiples_vanish(n as int, pow2(149) as int);
    assert(pow2(149) * n == n * pow2(149)) by (nonlinear_arith);
}

/// Small integers are added exactly.
pub proof fn law_small_sum(m: nat, n: nat)
    requires
        m + n < 0x100_0000,
    ensures
        plus(of_int(m), of_int(n)) == of_int(m + n),
{
    let half = SINGLE as nat;
    reveal(plus);
    reveal(of_int);
    lemma_format(half);
    law_integer_is_exact(half, m);
    law_integer_is_exact(half, n);
    assert(m * pow2(149) + n * pow2(149) == (m + n) * pow2(149)) by (nonlinear_arith);
}

} // verus!
