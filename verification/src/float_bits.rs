//! Which numbers the bit patterns of the IEEE 754 interchange formats stand for, and
//! how they compare.
//!
//! Floating-point values (probabilities, entropies, inter-arrival times) are held as
//! their bit patterns throughout the crate.
use vstd::arithmetic::power2::lemma2_to64;
use vstd::arithmetic::power2::lemma_pow2_pos;
use vstd::arithmetic::power2::lemma_pow2_strictly_increases;
use vstd::arithmetic::power2::lemma_pow2_unfold;
use vstd::arithmetic::power2::pow2;
use vstd::prelude::*;

verus! {

/// The magnitude that an exponent field and a fraction field stand for, in units
/// of the smallest positive number of the format; `hidden` is the weight of the
/// hidden bit. Infinity comes out above every finite magnitude.
pub open spec fn magnitude(hidden: nat, exponent: nat, fraction: nat) -> nat {
    if exponent == 0 {
        fraction
    } else {
        (hidden + fraction) * pow2((exponent - 1) as nat)
    }
}

/// A double-precision pattern that stands for no number.
pub open spec fn double_is_nan(bits: u64) -> bool {
    bits % 0x8000_0000_0000_0000 > 0x7ff0_0000_0000_0000
}

/// A single-precision pattern that stands for no number.
pub open spec fn single_is_nan(bits: u32) -> bool {
    bits % 0x8000_0000 > 0x7f80_0000
}

/// The number that a double-precision pattern stands for, in units of `2^-1074`.
pub open spec fn double_value(bits: u64) -> int {
    let body = bits as nat % 0x8000_0000_0000_0000;
    let size = magnitude(0x10_0000_0000_0000, body / 0x10_0000_0000_0000, body % 0x10_0000_0000_0000);
    if bits < 0x8000_0000_0000_0000 {
        size as int
    } else {
        -size
    }
}

/// The number that a single-precision pattern stands for, in units of `2^-149`.
pub open spec fn single_value(bits: u32) -> int {
    let body = bits as nat % 0x8000_0000;
    let size = magnitude(0x80_0000, body / 0x80_0000, body % 0x80_0000);
    if bits < 0x8000_0000 {
        size as int
    } else {
        -size
    }
}

/// One double-precision number is less than another; false where either pattern
/// stands for no number.
pub open spec fn double_less(a: u64, b: u64) -> bool {
    !double_is_nan(a) && !double_is_nan(b) && double_value(a) < double_value(b)
}

/// One single-precision number is less than another; false where either pattern
/// stands for no number.
pub open spec fn single_less(a: u32, b: u32) -> bool {
    !single_is_nan(a) && !single_is_nan(b) && single_value(a) < single_value(b)
}

/// Magnitudes are ordered as their fields read as one integer.
pub proof fn lemma_magnitude_order(hidden: nat, a: nat, b: nat)
    requires
        hidden > 0,
        a < b,
    ensures
        magnitude(hidden, a / hidden, a % hidden) < magnitude(hidden, b / hidden, b % hidden),
{
    let ea = a / hidden;
    let eb = b / hidden;
    let fa = a % hidden;
    let fb = b % hidden;
    vstd::arithmetic::div_mod::lemma_fundamental_div_mod(a as int, hidden as int);
    vstd::arithmetic::div_mod::lemma_fundamental_div_mod(b as int, hidden as int);
    lemma2_to64();
    assert(ea <= eb) by (nonlinear_arith)
        requires
            a == hidden * ea + fa,
            b == hidden * eb + fb,
            a < b,
            fb < hidden,
            0 <= fa,
    ;
    if ea == eb {
        assert(fa < fb);
        if ea > 0 {
            let p = pow2((ea - 1) as nat);
            lemma_pow2_pos((ea - 1) as nat);
            assert((hidden + fa) * p < (hidden + fb) * p) by (nonlinear_arith)
                requires
                    fa < fb,
                    p >= 1,
            ;
        }
    } else {
        let pb = pow2((eb - 1) as nat);
        lemma_pow2_pos((eb - 1) as nat);
        assert((hidden + fb) * pb >= hidden * pb) by (nonlinear_arith);
        if ea == 0 {
            assert(hidden * pb >= hidden) by (nonlinear_arith)
                requires
                    pb >= 1,
            ;
        } else {
            let pa = pow2((ea - 1) as nat);
            lemma_pow2_pos((ea - 1) as nat);
            lemma_pow2_unfold(ea);
            if ea < eb - 1 {
                lemma_pow2_strictly_increases(ea, (eb - 1) as nat);
            }
            assert((hidden + fa) * pa < hidden * pb) by (nonlinear_arith)
                requires
                    fa < hidden,
                    pa >= 1,
                    pb >= 2 * pa,
            ;
        }
    }
}

/// Numbers that are not negative are ordered as their patterns.
pub proof fn law_patterns_order_numbers(a: u32, b: u32, c: u64, d: u64)
    requires
        a <= 0x7f80_0000,
        b <= 0x7f80_0000,
        c <= 0x7ff0_0000_0000_0000,
        d <= 0x7ff0_0000_0000_0000,
    ensures
        single_less(a, b) <==> a < b,
        double_less(c, d) <==> c < d,
{
    if a < b {
        lemma_magnitude_order(0x80_0000, a as nat, b as nat);
    } else if b < a {
        lemma_magnitude_order(0x80_0000, b as nat, a as nat);
    }
    if c < d {
        lemma_magnitude_order(0x10_0000_0000_0000, c as nat, d as nat);
    } else if d < c {
        lemma_magnitude_order(0x10_0000_0000_0000, d as nat, c as nat);
    }
}

/// The integer by which a double-precision pattern is ordered.
pub open spec fn double_key(bits: u64) -> int {
    if bits < 0x8000_0000_0000_0000 {
        bits as int
    } else {
        0x8000_0000_0000_0000 - bits
    }
}

/// The keys order all double-precision patterns as the numbers that they stand
/// for: equal numbers have equal keys, and both zeros are one number.
pub proof fn law_double_key_orders(a: u64, b: u64)
    ensures
        double_key(a) < double_key(b) <==> double_value(a) < double_value(b),
        double_key(a) == double_key(b) <==> double_value(a) == double_value(b),
{
    let x = a as nat % 0x8000_0000_0000_0000;
    let y = b as nat % 0x8000_0000_0000_0000;
    let h: nat = 0x10_0000_0000_0000;
    if x < y {
        lemma_magnitude_order(h, x, y);
    } else if y < x {
        lemma_magnitude_order(h, y, x);
    }
    if x > 0 {
        lemma_magnitude_order(h, 0, x);
    }
    if y > 0 {
        lemma_magnitude_order(h, 0, y);
    }
}

/// The integer by which a double-precision pattern is ordered.
pub fn order_key(bits: u64) -> (key: i64)
    ensures
        key == double_key(bits),
{
    if bits < 0x8000_0000_0000_0000 {
        bits as i64
    } else {
        let body: u64 = bits - 0x8000_0000_0000_0000;
        -(body as i64)
    }
}

/// Tests whether a double-precision pattern stands for no number.
pub fn is_nan(bits: u64) -> (r: bool)
    ensures
        r == double_is_nan(bits),
{
    bits % 0x8000_0000_0000_0000 > 0x7ff0_0000_0000_0000
}

/// Compares two double-precision numbers.
pub fn double_lt(a: u64, b: u64) -> (r: bool)
    ensures
        r == double_less(a, b),
{
    proof {
        law_double_key_orders(a, b);
    }
    !is_nan(a) && !is_nan(b) && order_key(a) < order_key(b)
}

/// The integer by which a single-precision pattern is ordered.
fn single_order_key(bits: u32) -> (key: i64)
    ensures
        key == if bits < 0x8000_0000 {
            bits as int
        } else {
            0x8000_0000 - bits
        },
{
    if bits < 0x8000_0000 {
        bits as i64
    } else {
        0x8000_0000i64 - bits as i64
    }
}

/// Compares two single-precision numbers.
pub fn single_lt(a: u32, b: u32) -> (r: bool)
    ensures
        r == single_less(a, b),
{
    proof {
        let x = a as nat % 0x8000_0000;
        let y = b as nat % 0x8000_0000;
        let h: nat = 0x80_0000;
        if x < y {
            lemma_magnitude_order(h, x, y);
        } else if y < x {
            lemma_magnitude_order(h, y, x);
        }
        if x > 0 {
            lemma_magnitude_order(h, 0, x);
        }
        if y > 0 {
            lemma_magnitude_order(h, 0, y);
        }
    }
    let a_nan = a % 0x8000_0000 > 0x7f80_0000;
    let b_nan = b % 0x8000_0000 > 0x7f80_0000;
    !a_nan && !b_nan && single_order_key(a) < single_order_key(b)
}

} // verus!
