//! Nonnegative binary floating-point arithmetic, computed on integers.
//!
//! A number is `mant * 2^exp`. Every operation gives the exact result rounded to
//! a mantissa of fixed width, to nearest, ties to even. The width is handed over
//! as the smallest normal mantissa: [`SINGLE`] for single precision (24 bits)
//! and [`DOUBLE`] for double precision (53 bits). The exponent has no bounds;
//! signs, and the bounds of the interchange formats, are the matter of
//! [`crate::ieee`].
use vstd::arithmetic::div_mod::lemma_fundamental_div_mod;
use vstd::arithmetic::div_mod::lemma_fundamental_div_mod_converse;
use vstd::arithmetic::power2::lemma2_to64;
use vstd::arithmetic::power2::lemma2_to64_rest;
use vstd::arithmetic::power2::lemma_pow2_adds;
use vstd::arithmetic::power2::lemma_pow2_pos;
use vstd::arithmetic::power2::lemma_pow2_strictly_increases;
use vstd::arithmetic::power2::lemma_pow2_unfold;
use vstd::arithmetic::power2::pow2;
use vstd::prelude::*;

verus! {

/// The smallest normal mantissa of single precision, `2^23`.
pub const SINGLE: u64 = 0x80_0000;

/// The smallest normal mantissa of double precision, `2^52`.
pub const DOUBLE: u64 = 0x10_0000_0000_0000;

/// A nonnegative number `mant * 2^exp`; zero is written with exponent zero.
pub struct Flt {
    pub mant: nat,
    pub exp: int,
}

/// One of the two mantissa widths.
pub open spec fn is_format(half: nat) -> bool {
    half == SINGLE || half == DOUBLE
}

/// The number zero.
pub open spec fn zero() -> Flt {
    Flt { mant: 0, exp: 0 }
}

/// A number whose mantissa fills the width exactly, or zero.
pub open spec fn normal(half: nat, x: Flt) -> bool {
    x == zero() || half <= x.mant < 2 * half
}

/// `x * 2^k`.
pub open spec fn scaled(x: Flt, k: int) -> Flt {
    if x.mant == 0 {
        x
    } else {
        Flt { mant: x.mant, exp: x.exp + k }
    }
}

/// `n / d` rounded to an integer, to nearest, ties to even.
pub open spec fn half_even(n: nat, d: nat) -> nat {
    let q = n / d;
    let r = n % d;
    if 2 * r < d || (2 * r == d && q % 2 == 0) {
        q
    } else {
        q + 1
    }
}

/// `n / d` rounded to a mantissa of the given width, to nearest, ties to even:
/// the quotient is brought between `half` and `2 * half` by powers of two, then
/// rounded to an integer.
pub open spec fn round(half: nat, n: nat, d: nat) -> Flt
    decreases
            (if n >= 2 * half * d {
                n - d
            } else if n < half * d {
                half * d - n
            } else {
                0
            }),
    via round_decreases
{
    if half == 0 || n == 0 || d == 0 {
        zero()
    } else if n >= 2 * half * d {
        scaled(round(half, n, 2 * d), 1)
    } else if n < half * d {
        scaled(round(half, 2 * n, d), -1)
    } else {
        let m = half_even(n, d);
        if m == 2 * half {
            Flt { mant: half, exp: 1 }
        } else {
            Flt { mant: m, exp: 0 }
        }
    }
}

#[via_fn]
proof fn round_decreases(half: nat, n: nat, d: nat) {
    if half == 0 || n == 0 || d == 0 {
    } else if n >= 2 * half * d {
        assert(2 * half * d >= 2 * d) by (nonlinear_arith)
            requires
                half >= 1,
        ;
        assert(half * (2 * d) == 2 * half * d) by (nonlinear_arith);
        assert(2 * half * (2 * d) == 2 * (2 * half * d)) by (nonlinear_arith);
    } else if n < half * d {
        assert(2 * half * d == 2 * (half * d)) by (nonlinear_arith);
    }
}

/// A number of this module at run time.
#[derive(Clone, Copy)]
pub struct Num {
    pub mant: u64,
    pub exp: i128,
}

impl View for Num {
    type V = Flt;

    open spec fn view(&self) -> Flt {
        Flt { mant: self.mant as nat, exp: self.exp as int }
    }
}

/// Rounding gives a mantissa that fills the width.
pub proof fn lemma_round_normal(half: nat, n: nat, d: nat)
    requires
        half > 0,
        n > 0,
        d > 0,
    ensures
        half <= round(half, n, d).mant < 2 * half,
    decreases
            (if n >= 2 * half * d {
                n - d
            } else if n < half * d {
                half * d - n
            } else {
                0
            }),
{
    if n >= 2 * half * d {
        assert(2 * half * d >= 2 * d) by (nonlinear_arith)
            requires
                half >= 1,
        ;
        assert(half * (2 * d) == 2 * half * d) by (nonlinear_arith);
        lemma_round_normal(half, n, 2 * d);
    } else if n < half * d {
        assert(2 * half * d == 2 * (half * d)) by (nonlinear_arith);
        lemma_round_normal(half, 2 * n, d);
    } else {
        let q = n / d;
        let r = n % d;
        lemma_fundamental_div_mod(n as int, d as int);
        assert(half <= q < 2 * half) by (nonlinear_arith)
            requires
                n == d * q + r,
                0 <= r < d,
                half * d <= n < 2 * half * d,
        ;
    }
}

/// `n / d` rounded to the given width.
pub fn round_ratio(half: u64, n: u128, d: u128) -> (r: Num)
    requires
        is_format(half as nat),
        1 <= d <= 0x1_0000_0000_0000_0000,
        n <= 0x100_0000_0000_0000_0000_0000_0000_0000,
    ensures
        r@ == round(half as nat, n as nat, d as nat),
        normal(half as nat, r@),
        -200 <= r.exp <= 200,
{
    if n == 0 {
        return Num { mant: 0, exp: 0 };
    }
    let h: u128 = half as u128;
    let mut num: u128 = n;
    let mut den: u128 = d;
    let mut exp: i128 = 0;
    let ghost target = round(half as nat, n as nat, d as nat);
    assert(h * den <= 0x100_0000_0000_0000_0000_0000_0000_0000) by (nonlinear_arith)
        requires
            h == SINGLE || h == DOUBLE,
            den <= 0x1_0000_0000_0000_0000,
    ;
    proof {
        lemma_pow2_pos(0);
        assert(pow2(0) == 1) by {
            lemma2_to64();
        }
    }
    while num >= 2 * (h * den)
        invariant
            h == half,
            h == SINGLE || h == DOUBLE,
            0 < num <= 0x100_0000_0000_0000_0000_0000_0000_0000,
            0 < den,
            h * den <= 0x100_0000_0000_0000_0000_0000_0000_0000,
            0 <= exp,
            den >= pow2(exp as nat),
            exp <= 128,
            target == scaled(round(half as nat, num as nat, den as nat), exp as int),
        decreases num - den,
    {
        proof {
            lemma_round_normal(half as nat, num as nat, (2 * den) as nat);
            assert(2 * (half as nat) * (den as nat) == 2 * (h * den)) by (nonlinear_arith)
                requires
                    h == half,
            ;
            assert(h * (2 * den) == 2 * (h * den)) by (nonlinear_arith);
            assert(h * den >= den) by (nonlinear_arith)
                requires
                    h >= 1,
            ;
            lemma_pow2_unfold((exp + 1) as nat);
            if exp >= 127 {
                lemma_pow2_big(exp as nat);
            }
        }
        den = 2 * den;
        exp = exp + 1;
    }
    let ghost ups = exp as int;
    let mut lift: i128 = 0;
    assert(2 * (half as nat) * (den as nat) == 2 * (h * den)) by (nonlinear_arith)
        requires
            h == half,
    ;
    while num < h * den
        invariant
            h == half,
            h == SINGLE || h == DOUBLE,
            0 < num < 2 * (h * den),
            0 < den,
            h * den <= 0x100_0000_0000_0000_0000_0000_0000_0000,
            0 <= lift <= 128,
            num >= pow2(lift as nat),
            exp == ups - lift,
            0 <= ups <= 128,
            target == scaled(round(half as nat, num as nat, den as nat), exp as int),
        decreases 2 * (h * den) - num,
    {
        proof {
            lemma_round_normal(half as nat, (2 * num) as nat, den as nat);
            assert(2 * (half as nat) * (den as nat) == 2 * (h * den)) by (nonlinear_arith)
                requires
                    h == half,
            ;
            lemma_pow2_unfold((lift + 1) as nat);
            if lift >= 127 {
                lemma_pow2_big(lift as nat);
            }
        }
        num = 2 * num;
        exp = exp - 1;
        lift = lift + 1;
    }
    let q: u128 = num / den;
    let rem: u128 = num % den;
    proof {
        lemma_fundamental_div_mod(num as int, den as int);
        assert(h <= q < 2 * h) by (nonlinear_arith)
            requires
                num == den * q + rem,
                0 <= rem < den,
                h * den <= num < 2 * (h * den),
        ;
        assert(2 * (half as nat) * (den as nat) == 2 * (h * den)) by (nonlinear_arith)
            requires
                h == half,
        ;
        assert(half_even(num as nat, den as nat) == if 2 * rem < den || (2 * rem == den && q % 2
            == 0) {
            q as nat
        } else {
            (q + 1) as nat
        });
    }
    let up = if rem < den - rem || (rem == den - rem && q % 2 == 0) {
        false
    } else {
        true
    };
    let m: u64 = if up {
        q as u64 + 1
    } else {
        q as u64
    };
    if m == 2 * half {
        Num { mant: half, exp: exp + 1 }
    } else {
        Num { mant: m, exp }
    }
}

/// Large powers of two.
proof fn lemma_pow2_big(e: nat)
    requires
        e >= 127,
    ensures
        pow2(e) >= 0x8000_0000_0000_0000_0000_0000_0000_0000,
{
    lemma2_to64();
    lemma2_to64_rest();
    lemma_pow2_adds(64, 63);
    assert(pow2(64) == 0x1_0000_0000_0000_0000);
    assert(pow2(63) == 0x8000_0000_0000_0000);
    assert(pow2(127) == 0x8000_0000_0000_0000_0000_0000_0000_0000);
    if e > 127 {
        lemma_pow2_strictly_increases(127, e);
    }
}

/// The quotient of `n` by one, brought down by `k` powers of two.
proof fn lemma_round_down(half: nat, n: nat, k: nat)
    requires
        half > 0,
        n >= half * pow2(k),
    ensures
        round(half, n, 1) == scaled(round(half, n, pow2(k)), k as int),
    decreases k,
{
    lemma_pow2_pos(k);
    assert(half * pow2(k) >= 1) by (nonlinear_arith)
        requires
            half >= 1,
            pow2(k) >= 1,
    ;
    lemma_round_normal(half, n, pow2(k));
    lemma2_to64();
    if k > 0 {
        let j = (k - 1) as nat;
        lemma_pow2_unfold(k);
        lemma_pow2_pos(j);
        assert(half * pow2(k) == 2 * half * pow2(j)) by (nonlinear_arith)
            requires
                pow2(k) == 2 * pow2(j),
        ;
        assert(2 * half * pow2(j) >= half * pow2(j)) by (nonlinear_arith)
            requires
                half >= 1,
        ;
        lemma_round_down(half, n, j);
    }
}

/// A number of full width is its own rounding, at any power of two.
pub proof fn lemma_round_exact(half: nat, m: nat, k: nat)
    requires
        half <= m < 2 * half,
        half > 0,
    ensures
        round(half, m * pow2(k), 1) == (Flt { mant: m, exp: k as int }),
{
    lemma_pow2_pos(k);
    let n = m * pow2(k);
    assert(n >= half * pow2(k)) by (nonlinear_arith)
        requires
            m >= half,
            n == m * pow2(k),
    ;
    lemma_round_down(half, n, k);
    assert(n < 2 * half * pow2(k)) by (nonlinear_arith)
        requires
            m < 2 * half,
            n == m * pow2(k),
            pow2(k) >= 1,
    ;
    assert(n == m * pow2(k) + 0);
    lemma_fundamental_div_mod_converse(n as int, pow2(k) as int, m as int, 0);
}

/// Adding less than a quarter of the last place leaves a number as it is.
proof fn lemma_round_absorb(half: nat, m: nat, k: nat, s: nat)
    requires
        half <= m < 2 * half,
        half > 0,
        2 * s < pow2(k),
    ensures
        round(half, m * pow2(k) + s, 1) == (Flt { mant: m, exp: k as int }),
{
    let n = m * pow2(k) + s;
    lemma_pow2_pos(k);
    assert(n >= half * pow2(k)) by (nonlinear_arith)
        requires
            m >= half,
            n == m * pow2(k) + s,
    ;
    lemma_round_down(half, n, k);
    assert(n < 2 * half * pow2(k)) by (nonlinear_arith)
        requires
            m + 1 <= 2 * half,
            n == m * pow2(k) + s,
            s < pow2(k),
    ;
    lemma_fundamental_div_mod_converse(n as int, pow2(k) as int, m as int, s as int);
}

/// Subtracting less than an eighth of the last place leaves a number as it is.
proof fn lemma_round_absorb_below(half: nat, m: nat, k: nat, s: nat)
    requires
        half <= m < 2 * half,
        half > 0,
        0 < s,
        k > 0,
        4 * s < pow2(k),
    ensures
        m * pow2(k) >= s,
        round(half, (m * pow2(k) - s) as nat, 1) == (Flt { mant: m, exp: k as int }),
{
    lemma_pow2_pos(k);
    let t = pow2(k);
    assert(m * t >= t) by (nonlinear_arith)
        requires
            m >= 1,
            t >= 1,
    ;
    let n = (m * t - s) as nat;
    if m > half {
        assert(n >= half * t) by (nonlinear_arith)
            requires
                m >= half + 1,
                n == m * t - s,
                s <= t,
        ;
        lemma_round_down(half, n, k);
        assert(n < 2 * half * t) by (nonlinear_arith)
            requires
                m < 2 * half,
                n < m * t,
        ;
        assert(n == t * (m - 1) + (t - s)) by (nonlinear_arith)
            requires
                n == m * t - s,
        ;
        lemma_fundamental_div_mod_converse(n as int, t as int, (m - 1) as int, (t - s) as int);
    } else {
        let j = (k - 1) as nat;
        let u = pow2(j);
        lemma_pow2_unfold(k);
        lemma_pow2_pos(j);
        assert(n == (2 * half - 1) * u + (u - s)) by (nonlinear_arith)
            requires
                m == half,
                t == 2 * u,
                n == m * t - s,
        ;
        assert((2 * half - 1) * u >= half * u) by (nonlinear_arith)
            requires
                half >= 1,
        ;
        assert(n < 2 * half * u) by (nonlinear_arith)
            requires
                n == (2 * half - 1) * u + (u - s),
                s > 0,
        ;
        lemma_round_down(half, n, j);
        lemma_fundamental_div_mod_converse(
            n as int,
            u as int,
            (2 * half - 1) as int,
            (u - s) as int,
        );
    }
}

/// A quotient of at least `half` needs no negative power of two.
pub proof fn lemma_round_exp_lower(half: nat, n: nat, d: nat)
    requires
        half > 0,
        d > 0,
        n >= half * d,
    ensures
        round(half, n, d).exp >= 0,
        round(half, n, d).mant > 0,
    decreases n - d,
{
    assert(half * d >= d) by (nonlinear_arith)
        requires
            half >= 1,
    ;
    lemma_round_normal(half, n, d);
    if n >= 2 * half * d {
        assert(2 * half * d >= 2 * d) by (nonlinear_arith)
            requires
                half >= 1,
        ;
        assert(half * (2 * d) == 2 * half * d) by (nonlinear_arith);
        lemma_round_exp_lower(half, n, 2 * d);
    }
}

/// A quotient below `2 * half` is rounded to at most `2 * half`.
pub proof fn lemma_round_exp_upper(half: nat, n: nat, d: nat)
    requires
        half > 0,
        d > 0,
        n < 2 * half * d,
    ensures
        round(half, n, d).exp <= 1,
    decreases half * d - n,
{
    if n > 0 && n < half * d {
        assert(2 * half * d == 2 * (half * d)) by (nonlinear_arith);
        lemma_round_normal(half, 2 * n, d);
        if 2 * n < half * d {
            lemma_round_exp_upper(half, 2 * n, d);
        }
    }
}

/// The exponent of an integer rounded to the given width.
pub proof fn lemma_round_int_exp(half: nat, n: nat, k: nat)
    requires
        half > 0,
        n < 2 * half * pow2(k),
    ensures
        round(half, n, 1).exp <= k + 1,
        n >= half * pow2(k) ==> round(half, n, 1).exp >= k,
    decreases k,
{
    lemma_pow2_pos(k);
    lemma2_to64();
    if n >= half * pow2(k) {
        lemma_round_down(half, n, k);
        lemma_round_exp_upper(half, n, pow2(k));
        lemma_round_exp_lower(half, n, pow2(k));
    } else if k > 0 {
        lemma_pow2_unfold(k);
        let j = (k - 1) as nat;
        assert(2 * half * pow2(j) == half * pow2(k)) by (nonlinear_arith)
            requires
                pow2(k) == 2 * pow2(j),
        ;
        lemma_round_int_exp(half, n, j);
    } else {
        assert(2 * half * pow2(k) == 2 * half * 1) by (nonlinear_arith)
            requires
                pow2(k) == 1,
        ;
        lemma_round_exp_upper(half, n, 1);
    }
}

/// The mantissa of `x` when it is written with exponent `e`.
pub open spec fn lifted(x: Flt, e: int) -> nat {
    x.mant * pow2((x.exp - e) as nat)
}

/// The smaller exponent of two numbers.
pub open spec fn low_exp(a: Flt, b: Flt) -> int {
    if a.exp <= b.exp {
        a.exp
    } else {
        b.exp
    }
}

/// The larger exponent of two numbers.
pub open spec fn high_exp(a: Flt, b: Flt) -> int {
    if a.exp <= b.exp {
        b.exp
    } else {
        a.exp
    }
}

/// The rounding of an integer.
pub open spec fn of_int(half: nat, n: nat) -> Flt {
    round(half, n, 1)
}

/// `a + b`, rounded.
pub open spec fn plus(half: nat, a: Flt, b: Flt) -> Flt {
    let e = low_exp(a, b);
    scaled(round(half, lifted(a, e) + lifted(b, e), 1), e)
}

/// `|a - b|`, rounded.
pub open spec fn gap(half: nat, a: Flt, b: Flt) -> Flt {
    let e = low_exp(a, b);
    let x = lifted(a, e);
    let y = lifted(b, e);
    let diff = if x >= y {
        x - y
    } else {
        y - x
    };
    scaled(round(half, diff as nat, 1), e)
}

/// `a / b`, rounded.
pub open spec fn over(half: nat, a: Flt, b: Flt) -> Flt {
    scaled(round(half, a.mant, b.mant), a.exp - b.exp)
}

/// `a < b`.
pub open spec fn less(a: Flt, b: Flt) -> bool {
    let e = low_exp(a, b);
    lifted(a, e) < lifted(b, e)
}

/// The integer part.
pub open spec fn floor(x: Flt) -> nat {
    if x.exp >= 0 {
        x.mant * pow2(x.exp as nat)
    } else {
        x.mant / pow2((-x.exp) as nat)
    }
}

/// The exponents that the operations accept.
pub open spec fn in_range(x: Flt) -> bool {
    -0x1_0000_0000_0000_0000_0000_0000 <= x.exp <= 0x1_0000_0000_0000_0000_0000_0000
}

/// `2^k`.
pub fn power(k: u32) -> (r: u128)
    requires
        k <= 120,
    ensures
        r == pow2(k as nat),
        1 <= r <= 0x100_0000_0000_0000_0000_0000_0000_0000,
        k <= 64 ==> r <= 0x1_0000_0000_0000_0000,
{
    let mut r: u128 = 1;
    let mut i: u32 = 0;
    proof {
        lemma2_to64();
    }
    while i < k
        invariant
            i <= k <= 120,
            r == pow2(i as nat),
            r <= 0x100_0000_0000_0000_0000_0000_0000_0000,
        decreases k - i,
    {
        proof {
            lemma_pow2_unfold((i + 1) as nat);
            lemma_pow2_bound((i + 1) as nat);
        }
        r = 2 * r;
        i = i + 1;
    }
    proof {
        lemma_pow2_pos(k as nat);
        lemma2_to64();
        if k < 64 {
            lemma_pow2_strictly_increases(k as nat, 64);
        }
    }
    r
}

/// The largest power of two that is used.
proof fn lemma_pow2_bound(k: nat)
    requires
        k <= 120,
    ensures
        pow2(k) <= 0x100_0000_0000_0000_0000_0000_0000_0000,
{
    lemma2_to64();
    lemma2_to64_rest();
    lemma_pow2_adds(64, 56);
    assert(pow2(64) * pow2(56) == 0x100_0000_0000_0000_0000_0000_0000_0000) by (nonlinear_arith)
        requires
            pow2(64) == 0x1_0000_0000_0000_0000,
            pow2(56) == 0x100_0000_0000_0000,
    ;
    if k < 120 {
        lemma_pow2_strictly_increases(k, 120);
    }
}

/// Written with its own exponent, a number keeps its mantissa.
proof fn lemma_lifted_self(x: Flt)
    ensures
        lifted(x, x.exp) == x.mant,
{
    lemma2_to64();
    assert(x.mant * pow2(0) == x.mant) by (nonlinear_arith)
        requires
            pow2(0) == 1,
    ;
}

/// Zero is neutral for addition and for distance.
proof fn lemma_zero_neutral(half: nat, x: Flt)
    requires
        half > 0,
        normal(half, x),
    ensures
        plus(half, zero(), x) == x,
        plus(half, x, zero()) == x,
        gap(half, zero(), x) == x,
        gap(half, x, zero()) == x,
{
    let e = low_exp(x, zero());
    let k = (x.exp - e) as nat;
    assert(lifted(zero(), e) == 0) by (nonlinear_arith)
        requires
            lifted(zero(), e) == 0 * pow2((0 - e) as nat),
    ;
    if x.mant > 0 {
        lemma_round_exact(half, x.mant, k);
    } else {
        assert(lifted(x, e) == 0);
    }
}

/// Addition and distance do not depend on the order of the operands.
proof fn lemma_symmetric(half: nat, a: Flt, b: Flt)
    ensures
        plus(half, a, b) == plus(half, b, a),
        gap(half, a, b) == gap(half, b, a),
{
}

impl Num {
    /// The rounding of an integer.
    pub fn from_int(half: u64, n: u64) -> (r: Num)
        requires
            is_format(half as nat),
        ensures
            r@ == of_int(half as nat, n as nat),
            normal(half as nat, r@),
            -200 <= r.exp <= 200,
    {
        round_ratio(half, n as u128, 1)
    }

    /// `self + other`, rounded.
    pub fn add(self, other: Num, half: u64) -> (r: Num)
        requires
            is_format(half as nat),
            normal(half as nat, self@),
            normal(half as nat, other@),
            in_range(self@),
            in_range(other@),
        ensures
            r@ == plus(half as nat, self@, other@),
            normal(half as nat, r@),
            r.mant == 0 || (low_exp(self@, other@) <= r.exp <= high_exp(self@, other@) + 2),
    {
        proof {
            lemma_zero_neutral(half as nat, self@);
            lemma_zero_neutral(half as nat, other@);
            lemma_symmetric(half as nat, self@, other@);
        }
        if self.mant == 0 {
            return other;
        }
        if other.mant == 0 {
            return self;
        }
        let (hi, lo) = if self.exp >= other.exp {
            (self, other)
        } else {
            (other, self)
        };
        let diff: i128 = hi.exp - lo.exp;
        let ghost k = diff as nat;
        let ghost n = hi.mant * pow2(k) + lo.mant;
        proof {
            lemma_lifted_self(lo@);
        }
        assert(lifted(hi@, lo.exp as int) == hi.mant * pow2(k));
        proof {
            lemma_symmetric(half as nat, hi@, lo@);
            assert(plus(half as nat, hi@, lo@) == scaled(
                round(half as nat, n as nat, 1),
                lo.exp as int,
            ));
            lemma_pow2_pos(k);
            assert(half * pow2(k) <= n) by (nonlinear_arith)
                requires
                    half <= hi.mant,
                    n == hi.mant * pow2(k) + lo.mant,
            ;
            lemma_pow2_unfold(k + 1);
            assert(n < 2 * half * pow2(k + 1)) by (nonlinear_arith)
                requires
                    hi.mant < 2 * half,
                    lo.mant < 2 * half,
                    pow2(k) >= 1,
                    pow2(k + 1) == 2 * pow2(k),
                    n == hi.mant * pow2(k) + lo.mant,
            ;
            lemma_round_int_exp(half as nat, n as nat, k + 1);
            lemma_round_normal(half as nat, n as nat, 1);
            lemma_round_down(half as nat, n as nat, k);
            lemma_round_exp_lower(half as nat, n as nat, pow2(k));
        }
        if diff > 64 {
            proof {
                lemma_pow2_strictly_increases(64, k);
                lemma2_to64();
                lemma_round_absorb(half as nat, hi.mant as nat, k, lo.mant as nat);
            }
            return hi;
        }
        let p: u128 = power(diff as u32);
        assert(hi.mant * p <= 0x1_0000_0000_0000_0000 * 0x20_0000_0000_0000) by (nonlinear_arith)
            requires
                hi.mant <= 0x20_0000_0000_0000,
                p <= 0x1_0000_0000_0000_0000,
        ;
        let sum: u128 = hi.mant as u128 * p + lo.mant as u128;
        let r = round_ratio(half, sum, 1);
        Num { mant: r.mant, exp: r.exp + lo.exp }
    }

    /// `|self - other|`, rounded.
    pub fn abs_diff(self, other: Num, half: u64) -> (r: Num)
        requires
            is_format(half as nat),
            normal(half as nat, self@),
            normal(half as nat, other@),
            in_range(self@),
            in_range(other@),
        ensures
            r@ == gap(half as nat, self@, other@),
            normal(half as nat, r@),
            r.mant == 0 || (low_exp(self@, other@) - 200 <= r.exp <= high_exp(self@, other@) + 1),
    {
        proof {
            lemma_zero_neutral(half as nat, self@);
            lemma_zero_neutral(half as nat, other@);
            lemma_symmetric(half as nat, self@, other@);
        }
        if self.mant == 0 {
            return other;
        }
        if other.mant == 0 {
            return self;
        }
        let (hi, lo) = if self.exp >= other.exp {
            (self, other)
        } else {
            (other, self)
        };
        let diff: i128 = hi.exp - lo.exp;
        let ghost k = diff as nat;
        let ghost x = hi.mant * pow2(k);
        proof {
            lemma_lifted_self(lo@);
        }
        assert(lifted(hi@, lo.exp as int) == x);
        proof {
            lemma_symmetric(half as nat, hi@, lo@);
            lemma_pow2_pos(k);
        }
        if diff > 64 {
            proof {
                lemma_pow2_strictly_increases(64, k);
                lemma2_to64();
                lemma_round_absorb_below(half as nat, hi.mant as nat, k, lo.mant as nat);
            }
            return hi;
        }
        let p: u128 = power(diff as u32);
        assert(hi.mant * p <= 0x1_0000_0000_0000_0000 * 0x20_0000_0000_0000) by (nonlinear_arith)
            requires
                hi.mant <= 0x20_0000_0000_0000,
                p <= 0x1_0000_0000_0000_0000,
        ;
        let high: u128 = hi.mant as u128 * p;
        let low: u128 = lo.mant as u128;
        let dist: u128 = if high >= low {
            high - low
        } else {
            low - high
        };
        let r = round_ratio(half, dist, 1);
        proof {
            assert(dist < 2 * half * pow2(k)) by (nonlinear_arith)
                requires
                    hi.mant < 2 * half,
                    lo.mant < 2 * half,
                    pow2(k) >= 1,
                    dist <= hi.mant * pow2(k) || dist <= lo.mant,
            ;
            lemma_round_int_exp(half as nat, dist as nat, k);
        }
        if r.mant == 0 {
            return r;
        }
        Num { mant: r.mant, exp: r.exp + lo.exp }
    }

    /// `self / other`, rounded.
    pub fn div(self, other: Num, half: u64) -> (r: Num)
        requires
            is_format(half as nat),
            normal(half as nat, self@),
            normal(half as nat, other@),
            in_range(self@),
            in_range(other@),
            other.mant > 0,
        ensures
            r@ == over(half as nat, self@, other@),
            normal(half as nat, r@),
            r.mant == 0 || (self.exp - other.exp - 200 <= r.exp <= self.exp - other.exp + 200),
    {
        let r = round_ratio(half, self.mant as u128, other.mant as u128);
        if r.mant == 0 {
            return r;
        }
        Num { mant: r.mant, exp: r.exp + (self.exp - other.exp) }
    }

    /// `self < other`.
    pub fn lt(self, other: Num, half: u64) -> (r: bool)
        requires
            is_format(half as nat),
            normal(half as nat, self@),
            normal(half as nat, other@),
        ensures
            r == less(self@, other@),
    {
        proof {
            lemma_less(half as nat, self@, other@);
        }
        if other.mant == 0 {
            false
        } else if self.mant == 0 {
            true
        } else if self.exp == other.exp {
            self.mant < other.mant
        } else {
            self.exp < other.exp
        }
    }

    /// The integer part, or `cap` where that is smaller.
    pub fn floor_capped(self, cap: u64) -> (r: u64)
        ensures
            r == if floor(self@) < cap {
                floor(self@)
            } else {
                cap as nat
            },
    {
        if self.mant == 0 {
            proof {
                if self.exp >= 0 {
                    assert(floor(self@) == 0) by (nonlinear_arith)
                        requires
                            floor(self@) == 0 * pow2(self.exp as nat),
                    ;
                } else {
                    lemma_pow2_pos((-self.exp) as nat);
                    vstd::arithmetic::div_mod::lemma_div_basics_1(pow2((-self.exp) as nat) as int);
                }
            }
            return 0;
        }
        if self.exp >= 0 {
            if self.exp > 64 {
                proof {
                    lemma_pow2_strictly_increases(64, self.exp as nat);
                    lemma2_to64();
                    assert(self.mant * pow2(self.exp as nat) >= pow2(self.exp as nat))
                        by (nonlinear_arith)
                        requires
                            self.mant >= 1,
                    ;
                }
                return cap;
            }
            let p: u128 = power(self.exp as u32);
            assert(self.mant * p <= 0x1_0000_0000_0000_0000 * 0xffff_ffff_ffff_ffff)
                by (nonlinear_arith)
                requires
                    self.mant <= 0xffff_ffff_ffff_ffff,
                    p <= 0x1_0000_0000_0000_0000,
            ;
            let v: u128 = self.mant as u128 * p;
            if v < cap as u128 {
                v as u64
            } else {
                cap
            }
        } else {
            let down: i128 = if self.exp < -0x1_0000 {
                0x1_0000
            } else {
                -self.exp
            };
            if down > 64 {
                proof {
                    let k = (-self.exp) as nat;
                    lemma_pow2_strictly_increases(64, k);
                    lemma2_to64();
                    vstd::arithmetic::div_mod::lemma_basic_div(self.mant as int, pow2(k) as int);
                }
                return 0;
            }
            let p: u128 = power(down as u32);
            let v: u128 = self.mant as u128 / p;
            assert(v <= self.mant) by (nonlinear_arith)
                requires
                    v == self.mant as u128 / p,
                    p >= 1,
            ;
            if v < cap as u128 {
                v as u64
            } else {
                cap
            }
        }
    }
}

/// How two numbers of full width compare.
pub proof fn lemma_less(half: nat, a: Flt, b: Flt)
    requires
        half > 0,
        normal(half, a),
        normal(half, b),
    ensures
        less(a, b) == (b.mant != 0 && (a.mant == 0 || a.exp < b.exp || (a.exp == b.exp && a.mant
            < b.mant))),
{
    let e = low_exp(a, b);
    let ka = (a.exp - e) as nat;
    let kb = (b.exp - e) as nat;
    lemma_pow2_pos(ka);
    lemma_pow2_pos(kb);
    lemma2_to64();
    if b.mant == 0 {
        assert(lifted(b, e) == 0) by (nonlinear_arith)
            requires
                lifted(b, e) == 0 * pow2(kb),
        ;
    } else if a.mant == 0 {
        assert(lifted(a, e) == 0) by (nonlinear_arith)
            requires
                lifted(a, e) == 0 * pow2(ka),
        ;
        assert(b.mant * pow2(kb) >= 1) by (nonlinear_arith)
            requires
                b.mant >= 1,
                pow2(kb) >= 1,
        ;
    } else if a.exp < b.exp {
        lemma_pow2_unfold(kb);
        lemma_pow2_pos((kb - 1) as nat);
        assert(b.mant * pow2(kb) >= 2 * half) by (nonlinear_arith)
            requires
                b.mant >= half,
                pow2(kb) >= 2,
        ;
        lemma_lifted_self(a);
    } else if a.exp > b.exp {
        lemma_pow2_unfold(ka);
        lemma_pow2_pos((ka - 1) as nat);
        assert(a.mant * pow2(ka) >= 2 * half) by (nonlinear_arith)
            requires
                a.mant >= half,
                pow2(ka) >= 2,
        ;
        lemma_lifted_self(b);
    } else {
        lemma_lifted_self(a);
        lemma_lifted_self(b);
    }
}

/// `s` is the integer part of the square root of `t`.
pub open spec fn is_floor_root(s: nat, t: nat) -> bool {
    s * s <= t && t < (s + 1) * (s + 1)
}

/// The square root of `t` rounded to an integer. It never lies halfway between
/// two integers.
pub open spec fn nearest_root(t: nat) -> nat {
    let s = choose|s: nat| is_floor_root(s, t);
    if t - s * s > s {
        s + 1
    } else {
        s
    }
}

/// The binary logarithm of the smallest normal mantissa.
pub open spec fn log_half(half: nat) -> int {
    if half == SINGLE {
        23
    } else {
        52
    }
}

/// The square root, rounded: the number is written as `t * 2^f` with `f` even
/// and the root of `t` between `half` and `2 * half`.
pub open spec fn root(half: nat, x: Flt) -> Flt {
    if x.mant == 0 {
        zero()
    } else {
        let odd = (x.exp - log_half(half)) % 2 != 0;
        let t = if odd {
            2 * half * x.mant
        } else {
            half * x.mant
        };
        let f = if odd {
            x.exp - log_half(half) - 1
        } else {
            x.exp - log_half(half)
        };
        let m = nearest_root(t);
        if m == 2 * half {
            Flt { mant: half, exp: f / 2 + 1 }
        } else {
            Flt { mant: m, exp: f / 2 }
        }
    }
}

/// There is one floor of a square root.
proof fn lemma_floor_root_unique(s: nat, u: nat, t: nat)
    requires
        is_floor_root(s, t),
        is_floor_root(u, t),
    ensures
        s == u,
{
    if s < u {
        assert((s + 1) * (s + 1) <= u * u) by (nonlinear_arith)
            requires
                s + 1 <= u,
        ;
    }
    if u < s {
        assert((u + 1) * (u + 1) <= s * s) by (nonlinear_arith)
            requires
                u + 1 <= s,
        ;
    }
}

impl Num {
    /// The square root, rounded.
    pub fn sqrt(self, half: u64) -> (r: Num)
        requires
            is_format(half as nat),
            normal(half as nat, self@),
            in_range(self@),
        ensures
            r@ == root(half as nat, self@),
            normal(half as nat, r@),
            r.mant == 0 || self.exp / 2 - 200 <= r.exp <= self.exp / 2 + 200,
    {
        if self.mant == 0 {
            return Num { mant: 0, exp: 0 };
        }
        let w: i128 = if half == SINGLE {
            23
        } else {
            52
        };
        let shift: i128 = 0x2_0000_0000_0000_0000_0000_0000;
        let raised: u128 = (self.exp - w + shift) as u128;
        let odd = raised % 2 != 0;
        let h: u128 = half as u128;
        let m: u128 = self.mant as u128;
        assert(h * m < 2 * h * h && h * h <= h * m && h * h <= 0x100_0000_0000_0000_0000_0000_0000)
            by (nonlinear_arith)
            requires
                h <= m < 2 * h,
                h <= 0x10_0000_0000_0000,
        ;
        assert(2 * h * m == 2 * (h * m)) by (nonlinear_arith);
        assert(2 * h * h == 2 * (h * h)) by (nonlinear_arith);
        let t: u128 = if odd {
            2 * (h * m)
        } else {
            h * m
        };
        let even: u128 = if odd {
            raised - 1
        } else {
            raised
        };
        let f: i128 = even as i128 - shift;
        let exp: i128 = (even / 2) as i128 - shift / 2;
        assert(exp == f as int / 2);
        let mut lo: u128 = h;
        let mut hi: u128 = 2 * h;
        assert((2 * h) * (2 * h) == 4 * (h * h)) by (nonlinear_arith);
        while hi - lo > 1
            invariant
                0x80_0000 <= lo < hi <= 0x20_0000_0000_0000,
                h <= lo,
                hi <= 2 * h,
                lo * lo <= t,
                t < hi * hi,
            decreases hi - lo,
        {
            let mid: u128 = lo + (hi - lo) / 2;
            assert(mid * mid <= 0x20_0000_0000_0000 * 0x20_0000_0000_0000) by (nonlinear_arith)
                requires
                    mid <= 0x20_0000_0000_0000,
            ;
            if mid * mid <= t {
                lo = mid;
            } else {
                hi = mid;
            }
        }
        proof {
            assert(is_floor_root(lo as nat, t as nat));
            let s = choose|s: nat| is_floor_root(s, t as nat);
            lemma_floor_root_unique(lo as nat, s, t as nat);
            assert(lo * lo <= 0x20_0000_0000_0000 * 0x20_0000_0000_0000) by (nonlinear_arith)
                requires
                    lo <= 0x20_0000_0000_0000,
            ;
        }
        let up = t - lo * lo > lo;
        let mant: u64 = if up {
            lo as u64 + 1
        } else {
            lo as u64
        };
        assert(mant == nearest_root(t as nat));
        if mant == 2 * half {
            Num { mant: half, exp: exp + 1 }
        } else {
            Num { mant, exp }
        }
    }
}

/// Every number has an integer square root.
proof fn lemma_floor_root_exists(t: nat) -> (s: nat)
    ensures
        is_floor_root(s, t),
    decreases t,
{
    if t == 0 {
        assert(is_floor_root(0, 0)) by (nonlinear_arith);
        0
    } else {
        let s = lemma_floor_root_exists((t - 1) as nat);
        if t < (s + 1) * (s + 1) {
            s
        } else {
            assert((s + 2) * (s + 2) == (s + 1) * (s + 1) + 2 * s + 3) by (nonlinear_arith);
            s + 1
        }
    }
}

/// A square root has a mantissa that fills the width.
pub proof fn lemma_root_normal(half: nat, x: Flt)
    requires
        half > 0,
        half <= x.mant < 2 * half,
    ensures
        half <= root(half, x).mant < 2 * half,
{
    let odd = (x.exp - log_half(half)) % 2 != 0;
    let t = if odd {
        2 * half * x.mant
    } else {
        half * x.mant
    };
    assert(half * half <= t < 4 * (half * half)) by (nonlinear_arith)
        requires
            t == 2 * half * x.mant || t == half * x.mant,
            half <= x.mant < 2 * half,
            half > 0,
    ;
    let e = lemma_floor_root_exists(t);
    let s = choose|s: nat| is_floor_root(s, t);
    assert(half <= s < 2 * half) by (nonlinear_arith)
        requires
            s * s <= t,
            t < (s + 1) * (s + 1),
            half * half <= t < 4 * (half * half),
    ;
}

/// `x` lies within half a unit of its last place from `n / d`.
pub open spec fn within_half_unit(n: nat, d: nat, x: Flt) -> bool {
    if x.exp >= 0 {
        let unit = d * pow2(x.exp as nat);
        -unit <= 2 * (n - unit * x.mant) <= unit
    } else {
        -d <= 2 * (n * pow2((-x.exp) as nat) - d * x.mant) <= d
    }
}

/// Rounding gives a number that lies within half a unit of its last place from
/// the exact quotient, for every quotient.
pub proof fn law_round_is_nearest(half: nat, n: nat, d: nat)
    requires
        half > 0,
        d > 0,
    ensures
        within_half_unit(n, d, round(half, n, d)),
    decreases
            (if n >= 2 * half * d {
                n - d
            } else if n < half * d {
                half * d - n
            } else {
                0
            }),
{
    lemma2_to64();
    assert(2 * half * d == 2 * (half * d)) by (nonlinear_arith);
    assert(d * pow2(0) == d && d * pow2(1) == 2 * d) by (nonlinear_arith)
        requires
            pow2(0) == 1,
            pow2(1) == 2,
    ;
    if n == 0 {
        assert(d * pow2(0) * 0 == 0) by (nonlinear_arith);
    } else if n >= 2 * half * d {
        assert(2 * half * d >= 2 * d) by (nonlinear_arith)
            requires
                half >= 1,
        ;
        assert(half * (2 * d) == 2 * half * d) by (nonlinear_arith);
        law_round_is_nearest(half, n, 2 * d);
        lemma_round_exp_lower(half, n, 2 * d);
        let y = round(half, n, 2 * d);
        let k = y.exp as nat;
        lemma_pow2_unfold(k + 1);
        assert((2 * d) * pow2(k) == d * pow2(k + 1)) by (nonlinear_arith)
            requires
                pow2(k + 1) == 2 * pow2(k),
        ;
    } else if n < half * d {
        law_round_is_nearest(half, 2 * n, d);
        lemma_round_normal(half, 2 * n, d);
        let y = round(half, 2 * n, d);
        lemma_round_exp_upper(half, 2 * n, d);
        if y.exp == 1 {
            assert(d * pow2(1) * y.mant == 2 * (d * pow2(0) * y.mant)) by (nonlinear_arith)
                requires
                    pow2(1) == 2,
                    pow2(0) == 1,
            ;
        } else if y.exp == 0 {
            assert(d * pow2(0) * y.mant == d * y.mant && n * pow2(1) == 2 * n)
                by (nonlinear_arith)
                requires
                    pow2(0) == 1,
                    pow2(1) == 2,
            ;
        } else {
            let k = (-y.exp) as nat;
            lemma_pow2_unfold(k + 1);
            assert((2 * n) * pow2(k) == n * pow2(k + 1)) by (nonlinear_arith)
                requires
                    pow2(k + 1) == 2 * pow2(k),
            ;
        }
    } else {
        let q = n / d;
        let r = n % d;
        lemma_fundamental_div_mod(n as int, d as int);
        let m = half_even(n, d);
        assert(-d <= 2 * (n - d * m) <= d) by {
            assert(d * (q + 1) == d * q + d) by (nonlinear_arith);
        }
        if m == 2 * half {
            assert(d * pow2(1) * half == d * m) by (nonlinear_arith)
                requires
                    pow2(1) == 2,
                    m == 2 * half,
            ;
        } else {
            assert(d * pow2(0) * m == d * m) by (nonlinear_arith)
                requires
                    pow2(0) == 1,
            ;
        }
    }
}

/// Integers below `2 * half` are represented exactly.
pub proof fn law_small_integers_are_exact(half: nat, n: nat)
    requires
        is_format(half),
        n < 2 * half,
    ensures
        normal(half, of_int(half, n)),
        of_int(half, n).exp <= 0,
        of_int(half, n).mant == n * pow2((-of_int(half, n).exp) as nat),
{
    lemma2_to64();
    let x = of_int(half, n);
    if n > 0 {
        lemma_round_normal(half, n, 1);
        lemma_exact_up(half, n);
    }
}

/// A number below twice `half` is rounded to itself.
proof fn lemma_exact_up(half: nat, n: nat)
    requires
        half > 0,
        0 < n < 2 * half,
    ensures
        round(half, n, 1).exp <= 0,
        round(half, n, 1).mant == n * pow2((-round(half, n, 1).exp) as nat),
    decreases 2 * half - n,
{
    lemma2_to64();
    if n < half {
        lemma_round_normal(half, 2 * n, 1);
        lemma_exact_up(half, 2 * n);
        let k = (-round(half, 2 * n, 1).exp) as nat;
        lemma_pow2_unfold(k + 1);
        assert((2 * n) * pow2(k) == n * pow2(k + 1)) by (nonlinear_arith)
            requires
                pow2(k + 1) == 2 * pow2(k),
        ;
    } else {
        assert(n * pow2(0) == n) by (nonlinear_arith)
            requires
                pow2(0) == 1,
        ;
    }
}

/// Doubling the numerator of a small quotient lowers the exponent by one.
proof fn lemma_round_up(half: nat, n: nat, d: nat, k: nat)
    requires
        half > 0,
        n > 0,
        d > 0,
        k > 0 ==> n * pow2((k - 1) as nat) < half * d,
    ensures
        round(half, n, d) == scaled(round(half, n * pow2(k), d), -k),
    decreases k,
{
    lemma2_to64();
    if k == 0 {
        assert(n * pow2(0) == n) by (nonlinear_arith)
            requires
                pow2(0) == 1,
        ;
    } else {
        let j = (k - 1) as nat;
        lemma_pow2_unfold(k);
        lemma_pow2_pos(j);
        assert(n * pow2(k) == (2 * n) * pow2(j)) by (nonlinear_arith)
            requires
                pow2(k) == 2 * pow2(j),
        ;
        assert(n <= n * pow2(j)) by (nonlinear_arith)
            requires
                pow2(j) >= 1,
        ;
        assert(n < 2 * half * d) by {
            assert(2 * half * d == 2 * (half * d)) by (nonlinear_arith);
        }
        if j > 0 {
            let i = (j - 1) as nat;
            lemma_pow2_unfold(j);
            assert((2 * n) * pow2(i) == n * pow2(j)) by (nonlinear_arith)
                requires
                    pow2(j) == 2 * pow2(i),
            ;
        }
        lemma_round_up(half, 2 * n, d, j);
        lemma_round_normal(half, 2 * n, d);
        assert((2 * n) * pow2(j) > 0) by (nonlinear_arith)
            requires
                n > 0,
                pow2(j) > 0,
        ;
        lemma_round_normal(half, (2 * n) * pow2(j), d);
    }
}

/// The exponent of a positive 64-bit number in single precision.
pub proof fn lemma_single_int_exp(n: nat)
    requires
        1 <= n <= u64::MAX,
    ensures
        normal(SINGLE as nat, of_int(SINGLE as nat, n)),
        of_int(SINGLE as nat, n).mant > 0,
        -23 <= of_int(SINGLE as nat, n).exp <= 41,
{
    let half = SINGLE as nat;
    let x = of_int(half, n);
    lemma2_to64();
    lemma2_to64_rest();
    lemma_round_normal(half, n, 1);
    assert(2 * half * pow2(40) == 0x1_0000_0000_0000_0000) by (nonlinear_arith)
        requires
            half == 0x80_0000,
            pow2(40) == 0x100_0000_0000,
    ;
    lemma_round_int_exp(half, n, 40);
    if n < 2 * half {
        law_small_integers_are_exact(half, n);
        let k = (-x.exp) as nat;
        if k >= 24 {
            if k > 24 {
                lemma_pow2_strictly_increases(24, k);
            }
            assert(n * pow2(k) >= 0x100_0000) by (nonlinear_arith)
                requires
                    n >= 1,
                    pow2(k) >= 0x100_0000,
            ;
        }
    } else {
        lemma_round_exp_lower(half, n, 1);
    }
}

/// Rounding depends on the quotient alone: a common factor changes nothing.
pub proof fn lemma_round_common_factor(half: nat, n: nat, d: nat, k: nat)
    requires
        half > 0,
        d > 0,
        k > 0,
    ensures
        round(half, k * n, k * d) == round(half, n, d),
    decreases
            (if n >= 2 * half * d {
                n - d
            } else if n < half * d {
                half * d - n
            } else {
                0
            }),
{
    let kn = k * n;
    let kd = k * d;
    assert(kd > 0) by (nonlinear_arith)
        requires
            kd == k * d,
            k > 0,
            d > 0,
    ;
    assert(2 * half * kd == k * (2 * half * d) && half * kd == k * (half * d)
        && 2 * half * d == 2 * (half * d)) by (nonlinear_arith)
        requires
            kd == k * d,
    ;
    if n == 0 {
        assert(k * n == 0) by (nonlinear_arith)
            requires
                n == 0,
        ;
    } else if n >= 2 * half * d {
        assert(kn > 0 && kn >= 2 * half * kd && kn >= half * kd) by (nonlinear_arith)
            requires
                kn == k * n,
                k > 0,
                n > 0,
                n >= 2 * (half * d),
                2 * half * kd == k * (2 * half * d),
                half * kd == k * (half * d),
                2 * half * d == 2 * (half * d),
        ;
        assert(2 * half * d >= 2 * d) by (nonlinear_arith)
            requires
                half >= 1,
        ;
        assert(half * (2 * d) == 2 * half * d) by (nonlinear_arith);
        lemma_round_common_factor(half, n, 2 * d, k);
        assert(k * (2 * d) == 2 * kd) by (nonlinear_arith)
            requires
                kd == k * d,
        ;
    } else if n < half * d {
        assert(kn > 0 && kn < half * kd) by (nonlinear_arith)
            requires
                kn == k * n,
                k > 0,
                n > 0,
                n < half * d,
                half * kd == k * (half * d),
        ;
        assert(kn < 2 * half * kd) by {
            assert(2 * half * kd == 2 * (half * kd)) by (nonlinear_arith);
        }
        lemma_round_common_factor(half, 2 * n, d, k);
        assert(k * (2 * n) == 2 * kn) by (nonlinear_arith)
            requires
                kn == k * n,
        ;
    } else {
        assert(half * kd <= kn && kn < 2 * half * kd && kn > 0) by (nonlinear_arith)
            requires
                kn == k * n,
                k > 0,
                n > 0,
                half * d <= n,
                n < 2 * half * d,
                half * kd == k * (half * d),
                2 * half * kd == k * (2 * half * d),
        ;
        lemma_half_even_common_factor(n, d, k);
    }
}

/// Rounding to an integer depends on the quotient alone.
pub proof fn lemma_half_even_common_factor(n: nat, d: nat, k: nat)
    requires
        d > 0,
        k > 0,
    ensures
        half_even(k * n, k * d) == half_even(n, d),
{
    let kn = k * n;
    let kd = k * d;
    let q = n / d;
    let r = n % d;
    lemma_fundamental_div_mod(n as int, d as int);
    assert(kn == q * kd + k * r && 0 <= k * r < kd) by (nonlinear_arith)
        requires
            kn == k * n,
            kd == k * d,
            n == d * q + r,
            0 <= r < d,
            k > 0,
    ;
    lemma_fundamental_div_mod_converse(kn as int, kd as int, q as int, (k * r) as int);
    assert((2 * (k * r) < kd) == (2 * r < d) && (2 * (k * r) == kd) == (2 * r == d))
        by (nonlinear_arith)
        requires
            kd == k * d,
            k > 0,
    ;
}

/// Doubling the numerator raises the exponent by one.
proof fn lemma_round_doubled(half: nat, n: nat, d: nat)
    requires
        half > 0,
        d > 0,
    ensures
        round(half, 2 * n, d) == scaled(round(half, n, d), 1),
        round(half, n, 2 * d) == scaled(round(half, n, d), -1),
{
    lemma_round_common_factor(half, n, d, 2);
    if n > 0 {
        lemma_round_normal(half, n, d);
        lemma_round_normal(half, 2 * n, d);
        lemma_round_normal(half, n, 2 * d);
        assert(2 * half * d == 2 * (half * d)) by (nonlinear_arith);
        assert(half * (2 * d) == 2 * half * d) by (nonlinear_arith);
        assert(2 * half * (2 * d) == 2 * (2 * half * d)) by (nonlinear_arith);
        if n < half * d {
            assert(round(half, n, d) == scaled(round(half, 2 * n, d), -1));
        } else {
            assert(round(half, 2 * n, d) == scaled(round(half, 2 * n, 2 * d), 1));
        }
        if n < half * (2 * d) {
            assert(round(half, n, 2 * d) == scaled(round(half, 2 * n, 2 * d), -1));
        } else {
            assert(round(half, n, d) == scaled(round(half, n, 2 * d), 1));
        }
    }
}

/// Powers of two in the quotient go to the exponent.
pub proof fn lemma_round_shifted(half: nat, n: nat, d: nat, a: nat, b: nat)
    requires
        half > 0,
        d > 0,
    ensures
        round(half, n * pow2(a), d * pow2(b)) == scaled(round(half, n, d), a - b),
    decreases a + b,
{
    lemma2_to64();
    if a > 0 {
        let j = (a - 1) as nat;
        lemma_pow2_unfold(a);
        lemma_pow2_pos(b);
        assert(n * pow2(a) == 2 * (n * pow2(j))) by (nonlinear_arith)
            requires
                pow2(a) == 2 * pow2(j),
        ;
        assert(d * pow2(b) > 0) by (nonlinear_arith)
            requires
                d > 0,
                pow2(b) > 0,
        ;
        lemma_round_shifted(half, n, d, j, b);
        lemma_round_doubled(half, n * pow2(j), d * pow2(b));
    } else if b > 0 {
        let j = (b - 1) as nat;
        lemma_pow2_unfold(b);
        lemma_pow2_pos(j);
        assert(d * pow2(b) == 2 * (d * pow2(j))) by (nonlinear_arith)
            requires
                pow2(b) == 2 * pow2(j),
        ;
        assert(d * pow2(j) > 0) by (nonlinear_arith)
            requires
                d > 0,
                pow2(j) > 0,
        ;
        lemma_round_shifted(half, n, d, a, j);
        lemma_round_doubled(half, n * pow2(a), d * pow2(j));
    } else {
        assert(n * pow2(0) == n && d * pow2(0) == d) by (nonlinear_arith)
            requires
                pow2(0) == 1,
        ;
    }
}

/// A quotient of at most one has at most the exponent of one.
proof fn lemma_proper_exp(n: nat, d: nat)
    requires
        0 < n <= d,
    ensures
        round(SINGLE as nat, n, d).exp <= -23,
        normal(SINGLE as nat, round(SINGLE as nat, n, d)),
        round(SINGLE as nat, n, d).mant > 0,
{
    let half = SINGLE as nat;
    lemma2_to64();
    lemma_round_normal(half, n, d);
    assert(half * d == 0x80_0000 * d && 2 * half * d == 0x100_0000 * d) by (nonlinear_arith)
        requires
            half == 0x80_0000,
    ;
    assert(n * pow2(23) == 0x80_0000 * n && n * pow2(24) == 0x100_0000 * n && n * pow2(22)
        == 0x40_0000 * n) by (nonlinear_arith)
        requires
            pow2(22) == 0x40_0000,
            pow2(23) == 0x80_0000,
            pow2(24) == 0x100_0000,
    ;
    if n < d {
        lemma_round_up(half, n, d, 24);
        lemma_round_exp_upper(half, n * pow2(24), d);
    } else {
        lemma_round_up(half, n, d, 23);
        let m = n * pow2(23);
        lemma_fundamental_div_mod_converse(m as int, d as int, half as int, 0);
        assert(half_even(m, d) == half);
    }
}

/// Two quotients of at most one that are not too close keep their order when
/// they are rounded.
pub proof fn law_rounding_keeps_order(a: nat, b: nat, c: nat, d: nat)
    requires
        0 < a <= b,
        c <= d,
        0 < d,
        b * d < 0x80_0000,
    ensures
        less(round(SINGLE as nat, a, b), round(SINGLE as nat, c, d)) <==> a * d < c * b,
        less(round(SINGLE as nat, c, d), round(SINGLE as nat, a, b)) <==> c * b < a * d,
{
    let half = SINGLE as nat;
    let x = round(half, a, b);
    let y = round(half, c, d);
    lemma_proper_exp(a, b);
    assert(a * d > 0) by (nonlinear_arith)
        requires
            a > 0,
            d > 0,
    ;
    if c == 0 {
        assert(c * b == 0) by (nonlinear_arith)
            requires
                c == 0,
        ;
        lemma_less(half, x, y);
        lemma_less(half, y, x);
    } else if a * d == c * b {
        lemma_round_common_factor(half, a, b, d);
        lemma_round_common_factor(half, c, d, b);
        assert(d * a == b * c && d * b == b * d) by (nonlinear_arith)
            requires
                a * d == c * b,
        ;
        assert(x == y);
    } else {
        lemma_proper_exp(c, d);
        law_round_is_nearest(half, a, b);
        law_round_is_nearest(half, c, d);
        let e = low_exp(x, y);
        let n = pow2((-e) as nat);
        let p = pow2((x.exp - e) as nat);
        let q = pow2((y.exp - e) as nat);
        lemma_pow2_adds((-x.exp) as nat, (x.exp - e) as nat);
        lemma_pow2_adds((-y.exp) as nat, (y.exp - e) as nat);
        lemma_pow2_pos((x.exp - e) as nat);
        lemma_pow2_pos((y.exp - e) as nat);
        lemma_scale_down(p, (x.exp - e) as nat, (-e) as nat);
        lemma_scale_down(q, (y.exp - e) as nat, (-e) as nat);
        let xl = lifted(x, e);
        let yl = lifted(y, e);
        let xn = pow2((-x.exp) as nat);
        let yn = pow2((-y.exp) as nat);
        lemma_scaled_error(a, b, x.mant, xn, p, n);
        lemma_scaled_error(c, d, y.mant, yn, q, n);
        lemma_separated(a, b, c, d, xl, yl, n, p, q);
    }
}

/// A power of two with an exponent lower by at least 23.
proof fn lemma_scale_down(p: nat, i: nat, k: nat)
    requires
        p == pow2(i),
        i + 23 <= k,
    ensures
        p * 0x80_0000 <= pow2(k),
{
    lemma2_to64();
    lemma_pow2_adds(i, 23);
    if i + 23 < k {
        lemma_pow2_strictly_increases(i + 23, k);
    }
}

/// A bound on a rounding error, multiplied by a power of two.
proof fn lemma_scaled_error(a: nat, b: nat, mant: nat, xn: nat, p: nat, n: nat)
    requires
        -b <= 2 * (a * xn - b * mant) <= b,
        xn * p == n,
        p > 0,
    ensures
        -(b * p) <= 2 * (a * n - b * (mant * p)) <= b * p,
{
    assert(a * n - b * (mant * p) == (a * xn - b * mant) * p) by (nonlinear_arith)
        requires
            xn * p == n,
    ;
    let err = a * xn - b * mant;
    assert(-(b * p) <= 2 * (err * p) <= b * p) by (nonlinear_arith)
        requires
            -b <= 2 * err <= b,
            p > 0,
    ;
}

/// Approximations of two quotients that lie further apart than the errors are
/// ordered like the quotients.
proof fn lemma_separated(a: nat, b: nat, c: nat, d: nat, x: nat, y: nat, n: nat, p: nat, q: nat)
    requires
        b > 0,
        d > 0,
        b * d < 0x80_0000,
        -(b * p) <= 2 * (a * n - b * x) <= b * p,
        -(d * q) <= 2 * (c * n - d * y) <= d * q,
        p * 0x80_0000 <= n,
        q * 0x80_0000 <= n,
        p > 0,
        a * d != c * b,
    ensures
        x < y <==> a * d < c * b,
        y < x <==> c * b < a * d,
{
    let bd = b * d;
    let u = 2 * (a * n - b * x);
    let v = 2 * (c * n - d * y);
    // `2 * bd * (y - x)` is `2 * n * (c * b - a * d)` up to `d * u - b * v`.
    let (an, bx, cn, dy) = (a * n, b * x, c * n, d * y);
    assert(d * u == 2 * (d * an) - 2 * (d * bx)) by (nonlinear_arith)
        requires
            u == 2 * (an - bx),
    ;
    assert(b * v == 2 * (b * cn) - 2 * (b * dy)) by (nonlinear_arith)
        requires
            v == 2 * (cn - dy),
    ;
    assert(d * (a * n) == n * (a * d)) by (nonlinear_arith);
    assert(d * (b * x) == (b * d) * x) by (nonlinear_arith);
    assert(b * (c * n) == n * (c * b)) by (nonlinear_arith);
    assert(b * (d * y) == (b * d) * y) by (nonlinear_arith);
    assert(2 * (bd * y) - 2 * (bd * x) == 2 * (n * (c * b)) - 2 * (n * (a * d)) + d * u - b * v);
    assert(-(bd * p) <= d * u <= bd * p) by (nonlinear_arith)
        requires
            bd == b * d,
            -(b * p) <= u <= b * p,
            d > 0,
    ;
    assert(-(bd * q) <= b * v <= bd * q) by (nonlinear_arith)
        requires
            bd == b * d,
            -(d * q) <= v <= d * q,
            b > 0,
    ;
    assert(bd * p < n && bd * q < n) by (nonlinear_arith)
        requires
            bd < 0x80_0000,
            p * 0x80_0000 <= n,
            q * 0x80_0000 <= n,
            p > 0,
            n > 0,
    ;
    assert(bd > 0) by (nonlinear_arith)
        requires
            bd == b * d,
            b > 0,
            d > 0,
    ;
    if a * d < c * b {
        assert(n * (c * b) - n * (a * d) >= n) by (nonlinear_arith)
            requires
                a * d + 1 <= c * b,
        ;
        assert(x < y) by (nonlinear_arith)
            requires
                bd * y - bd * x > 0,
                bd > 0,
        ;
    } else {
        assert(n * (a * d) - n * (c * b) >= n) by (nonlinear_arith)
            requires
                c * b + 1 <= a * d,
        ;
        assert(y < x) by (nonlinear_arith)
            requires
                bd * x - bd * y > 0,
                bd > 0,
        ;
    }
}

/// The square of a nearest root lies within the root of the number.
pub proof fn lemma_nearest_root_close(t: nat)
    ensures
        -nearest_root(t) <= nearest_root(t) * nearest_root(t) - t <= nearest_root(t),
{
    let e = lemma_floor_root_exists(t);
    let s = choose|s: nat| is_floor_root(s, t);
    assert((s + 1) * (s + 1) == s * s + 2 * s + 1) by (nonlinear_arith);
}

} // verus!
