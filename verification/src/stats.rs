//! Statistics of packet sizes, in single precision.
use crate::float_bits::{law_patterns_order_numbers, single_is_nan};
use crate::ieee::{
    integer, law_integer_is_exact, law_integer_is_finite, law_quotient_of_equals,
    law_quotient_of_zero, law_small_quotient, lemma_format, lemma_units_bound, lemma_units_zero,
    nearest, units,
};
use crate::monotone::{
    law_nearest_keeps_order, lemma_ints, lemma_less_by_bits, lemma_over, lemma_units_order,
};
use crate::single::{fraction, less, minus, of_int, over, plus, root, square, zero, Single};
use crate::soft_float::{law_rounding_keeps_order, lemma_less, round, SINGLE};
use vstd::arithmetic::power2::{
    lemma2_to64, lemma_pow2_adds, lemma_pow2_pos, lemma_pow2_strictly_increases, lemma_pow2_unfold,
    pow2,
};
use vstd::prelude::*;

verus! {

/// `count / total`.
pub open spec fn share(count: nat, total: nat) -> Single {
    over(of_int(count), of_int(total))
}

/// A share of a whole.
pub fn share_of(count: u64, total: u64) -> (r: Single)
    ensures
        r == share(count as nat, total as nat),
{
    Single::from_int(count).over(Single::from_int(total))
}

/// Tests whether a share of a whole is larger than the fraction `n / d`.
pub fn share_exceeds(count: u64, total: u64, n: u64, d: u64) -> (r: bool)
    ensures
        r == less(fraction(n as nat, d as nat), share(count as nat, total as nat)),
{
    Single::fraction(n, d).less(share_of(count, total))
}

/// The sum of packet sizes, added from the first to the last.
pub open spec fn total(sizes: Seq<u16>) -> Single
    decreases sizes.len(),
{
    if sizes.len() == 0 {
        zero()
    } else {
        plus(total(sizes.drop_last()), of_int(sizes.last() as nat))
    }
}

/// The mean of packet sizes; zero where there are none.
pub open spec fn mean(sizes: Seq<u16>) -> Single {
    if sizes.len() == 0 {
        zero()
    } else {
        over(total(sizes), of_int(sizes.len()))
    }
}

/// The sum of the squared distances of packet sizes from `centre`.
pub open spec fn squared_distances(sizes: Seq<u16>, centre: Single) -> Single
    decreases sizes.len(),
{
    if sizes.len() == 0 {
        zero()
    } else {
        plus(
            squared_distances(sizes.drop_last(), centre),
            square(minus(of_int(sizes.last() as nat), centre)),
        )
    }
}

/// The standard deviation of packet sizes; zero where there are none.
pub open spec fn deviation(sizes: Seq<u16>) -> Single {
    if sizes.len() == 0 {
        zero()
    } else {
        root(over(squared_distances(sizes, mean(sizes)), of_int(sizes.len())))
    }
}

/// The mean of the packet sizes from position `from` up to `to`.
pub fn mean_between(data: &[u16], from: usize, to: usize) -> (r: Single)
    requires
        from <= to <= data@.len(),
    ensures
        r == mean(data@.subrange(from as int, to as int)),
{
    let ghost sizes = data@.subrange(from as int, to as int);
    if from == to {
        return Single { bits: 0 };
    }
    let mut sum = Single { bits: 0 };
    let mut i: usize = from;
    assert(sizes.take(0) =~= Seq::<u16>::empty());
    while i < to
        invariant
            from <= i <= to <= data@.len(),
            sizes == data@.subrange(from as int, to as int),
            sum == total(sizes.take(i - from)),
        decreases to - i,
    {
        proof {
            let next = sizes.take(i + 1 - from);
            assert(next.drop_last() =~= sizes.take(i - from));
            assert(next.last() == data@[i as int]);
        }
        sum = sum.plus(Single::from_int(data[i] as u64));
        i = i + 1;
    }
    assert(sizes.take(to - from) =~= sizes);
    sum.over(Single::from_int((to - from) as u64))
}

/// The mean of packet sizes.
pub fn mean_u16(data: &[u16]) -> (r: Single)
    ensures
        r == mean(data@),
{
    assert(data@.subrange(0, data@.len() as int) =~= data@);
    mean_between(data, 0, data.len())
}

/// The standard deviation of packet sizes.
pub fn std_dev_u16(data: &[u16]) -> (r: Single)
    ensures
        r == deviation(data@),
{
    if data.len() == 0 {
        return Single { bits: 0 };
    }
    let centre = mean_u16(data);
    let mut sum = Single { bits: 0 };
    let mut i: usize = 0;
    assert(data@.take(0) =~= Seq::<u16>::empty());
    while i < data.len()
        invariant
            i <= data@.len(),
            sum == squared_distances(data@.take(i as int), centre),
        decreases data@.len() - i,
    {
        proof {
            let next = data@.take(i + 1);
            assert(next.drop_last() =~= data@.take(i as int));
            assert(next.last() == data@[i as int]);
        }
        sum = sum.plus(Single::from_int(data[i] as u64).minus(centre).square());
        i = i + 1;
    }
    assert(data@.take(i as int) =~= data@);
    sum.over(Single::from_int(data.len() as u64)).root()
}

/// A share is compared with a fraction as exactly as the integers themselves, as
/// long as the product of the two denominators is below `2^23`.
pub proof fn law_share_threshold(count: nat, total: nat, n: nat, d: nat)
    requires
        count <= total,
        0 < total,
        0 < n <= d,
        total * d < 0x80_0000,
    ensures
        less(fraction(n, d), share(count, total)) <==> n * total < count * d,
        less(share(count, total), fraction(n, d)) <==> count * d < n * total,
{
    let half = SINGLE as nat;
    reveal(over);
    reveal(of_int);
    reveal(less);
    assert(total <= total * d && d <= total * d && d * total == total * d) by (nonlinear_arith)
        requires
            d >= 1,
            total >= 1,
    ;
    let x = round(half, n, d);
    let y = round(half, count, total);
    lemma_format(half);
    law_small_quotient(n, d);
    law_small_quotient(count, total);
    law_rounding_keeps_order(n, d, count, total);
    let a = fraction(n, d).bits;
    let b = share(count, total).bits;
    law_patterns_order_numbers(a, b, 0, 0);
    law_patterns_order_numbers(b, a, 0, 0);
    lemma_less(half, x, y);
    lemma_less(half, y, x);
    if count > 0 {
        lemma_lexicographic(half as int, x.exp + 149, x.mant as int, y.exp + 149, y.mant as int);
        lemma_lexicographic(half as int, y.exp + 149, y.mant as int, x.exp + 149, x.mant as int);
    } else {
        assert(y.mant == 0);
        assert(0 * d == 0);
        assert(n * total > 0) by (nonlinear_arith)
            requires
                n > 0,
                total > 0,
        ;
        assert((x.exp + 149) * half >= 0) by (nonlinear_arith)
            requires
                x.exp + 149 >= 0,
                half > 0,
        ;
    }
}

/// Patterns are ordered by exponent first, then by mantissa.
proof fn lemma_lexicographic(half: int, e: int, m: int, f: int, n: int)
    requires
        half > 0,
        half <= m < 2 * half,
        half <= n < 2 * half,
    ensures
        e * half + m < f * half + n <==> (e < f || (e == f && m < n)),
{
    if e < f {
        assert(f * half >= e * half + half) by (nonlinear_arith)
            requires
                f >= e + 1,
                half > 0,
        ;
    } else if f < e {
        assert(e * half >= f * half + half) by (nonlinear_arith)
            requires
                e >= f + 1,
                half > 0,
        ;
    }
}

/// The whole is the share one.
pub proof fn law_whole_share(total: nat)
    requires
        0 < total <= u64::MAX,
    ensures
        share(total, total) == of_int(1),
{
    let half = SINGLE as nat;
    reveal(over);
    reveal(of_int);
    lemma_format(half);
    law_integer_is_finite(total);
    law_quotient_of_equals(half, integer(half, total));
}

/// Nothing is the share zero.
pub proof fn law_empty_share(total: nat)
    requires
        0 < total <= u64::MAX,
    ensures
        share(0, total) == zero(),
{
    let half = SINGLE as nat;
    reveal(over);
    reveal(of_int);
    lemma_format(half);
    law_integer_is_finite(total);
    law_integer_is_finite(0);
    law_quotient_of_zero(half, integer(half, total));
}

/// Every fraction below one is less than one and not less than zero.
pub proof fn law_proper_fraction(n: nat, d: nat)
    requires
        0 < n < d < 0x80_0000,
    ensures
        less(fraction(n, d), of_int(1)),
        !less(fraction(n, d), zero()),
{
    law_whole_share(1);
    law_empty_share(1);
    law_share_threshold(1, 1, n, d);
    law_share_threshold(0, 1, n, d);
}

/// The share of some of a whole is above zero and at most one.
pub proof fn law_share_is_a_fraction(count: nat, total: nat)
    requires
        0 < count <= total <= u64::MAX,
    ensures
        !single_is_nan(share(count, total).bits),
        less(zero(), share(count, total)),
        !less(of_int(1), share(count, total)),
{
    lemma_share_bits(count, total);
    lemma_less_by_bits(zero(), share(count, total));
    lemma_less_by_bits(of_int(1), share(count, total));
}

/// The pattern of a share.
pub proof fn lemma_share_bits(count: nat, total: nat)
    requires
        0 < count <= total <= u64::MAX,
    ensures
        0 < share(count, total).bits <= of_int(1).bits < 0x7f80_0000,
{
    let half = SINGLE as nat;
    lemma_ints(count, total);
    lemma_format(half);
    assert(0 < of_int(count).bits < 0x7f80_0000 && 0 < of_int(total).bits < 0x7f80_0000
        && of_int(1).bits < 0x7f80_0000) by {
        reveal(of_int);
        law_integer_is_finite(count);
        law_integer_is_finite(total);
        law_integer_is_finite(1);
    }
    let (c, t) = (of_int(count), of_int(total));
    lemma_over(c, t, t, t);
    law_whole_share(total);
    lemma_ints(1, count);
    reveal(over);
    reveal(of_int);
    let (a, b) = (c.bits as nat, t.bits as nat);
    let (u, v, p) = (units(half, a), units(half, b), pow2(149));
    lemma_pow2_pos(149);
    law_integer_is_exact(half, 1);
    lemma_units_order(half, of_int(1).bits as nat, a);
    lemma_units_zero(half, b);
    lemma_units_bound(half, b, 253);
    lemma_pow2_adds(23, 254);
    lemma_pow2_adds(149, 149);
    lemma_pow2_unfold(278);
    lemma_pow2_strictly_increases(278, 298);
    lemma2_to64();
    assert(2 * half * pow2(254) == pow2(278)) by (nonlinear_arith)
        requires
            half == pow2(23),
            pow2(23 + 254) == pow2(23) * pow2(254),
            pow2(278) == 2 * pow2(277),
    ;
    assert(u * p >= p * p) by (nonlinear_arith)
        requires
            u >= p,
            p > 0,
    ;
    assert(1 * v <= (u * p) * 1);
    law_nearest_keeps_order(half, 1, 1, u * p, v);
    assert(nearest(half, 1, 1) == 1);
}

} // verus!
