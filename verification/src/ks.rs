//! The Kolmogorov-Smirnov test by which a generated mask is accepted.
use crate::float_bits::{
    double_is_nan, double_key, double_less, double_value, law_double_key_orders,
    law_patterns_order_numbers, single_is_nan, single_value,
};
use crate::ieee::{
    body, difference, difference_of, infinity, integer, integer_of, law_difference_is_symmetric,
    law_integer_is_exact, law_nearest_to_itself, law_quotient_of_equals, law_quotient_of_zero,
    law_quotients_are_finite, law_shortened_zero, law_values_agree, law_zero_is_neutral,
    lemma_double_integer, lemma_format, lemma_nearest_common_factor, lemma_units_zero, nearest,
    negated, quotient, quotient_of, shorten, shortened, units,
};
use crate::monotone::{
    law_integers_keep_order, law_nearest_keeps_order, law_quotients_keep_order, lemma_less_by_bits,
    lemma_packed_order, lemma_units_order,
};
use crate::precision::lemma_rounding_bound;
use crate::single::{less, of_int, zero, Single};
use crate::soft_float::{DOUBLE, SINGLE};
use crate::sorting::{
    ascending, keys_of, keys_up_to, lemma_count_sorted, lemma_count_unordered, sorted_keys,
};
use vstd::arithmetic::power2::{
    lemma2_to64, lemma2_to64_rest, lemma_pow2_adds, lemma_pow2_pos, lemma_pow2_strictly_increases,
    pow2,
};
use vstd::prelude::*;

verus! {

/// The number of elements of a sample that are at most `x`.
pub open spec fn count_up_to(sample: Seq<u64>, x: u64) -> nat
    decreases sample.len(),
{
    if sample.len() == 0 {
        0
    } else {
        count_up_to(sample.drop_last(), x) + if double_value(sample.last()) <= double_value(x) {
            1nat
        } else {
            0
        }
    }
}

/// The part `count / len` of a sample, in double precision.
pub open spec fn part(count: nat, len: nat) -> nat {
    quotient(DOUBLE as nat, integer(DOUBLE as nat, count), integer(DOUBLE as nat, len))
}

/// The distance of two parts.
#[verifier::opaque]
pub open spec fn parts_apart(count: nat, len: nat, other_count: nat, other_len: nat) -> u64 {
    body(
        DOUBLE as nat,
        difference(DOUBLE as nat, part(count, len), part(other_count, other_len)),
    ) as u64
}

/// The distance at `x` between the empirical distributions of two samples.
pub open spec fn distance_at(a: Seq<u64>, b: Seq<u64>, x: u64) -> u64 {
    parts_apart(count_up_to(a, x), a.len(), count_up_to(b, x), b.len())
}

/// The largest distance between the empirical distributions of two samples: it is
/// reached at an element of the samples and exceeded at none.
pub open spec fn is_largest_distance(a: Seq<u64>, b: Seq<u64>, d: u64) -> bool {
    &&& exists|k: int|
        0 <= k < (a + b).len() && d == distance_at(a, b, #[trigger] (a + b)[k])
    &&& forall|k: int|
        0 <= k < (a + b).len() ==> !double_less(d, distance_at(a, b, #[trigger] (a + b)[k]))
}

/// All elements of a sample are numbers.
pub open spec fn all_numbers(sample: Seq<u64>) -> bool {
    forall|i: int| 0 <= i < sample.len() ==> !double_is_nan(#[trigger] sample[i])
}

/// The distance at a key between two sequences of keys.
spec fn key_distance(a: Seq<i64>, b: Seq<i64>, k: i64) -> u64 {
    parts_apart(keys_up_to(a, k), a.len(), keys_up_to(b, k), b.len())
}

/// The pattern of infinity in double precision.
pub const INFINITE: u64 = 0x7ff0_0000_0000_0000;

/// A count does not exceed the number of keys.
proof fn lemma_count_capped(keys: Seq<i64>, k: i64)
    ensures
        keys_up_to(keys, k) <= keys.len(),
    decreases keys.len(),
{
    if keys.len() > 0 {
        lemma_count_capped(keys.drop_last(), k);
    }
}

/// The distance of two parts is a finite number.
proof fn lemma_apart_finite(count: nat, len: nat, other_count: nat, other_len: nat)
    requires
        count <= u64::MAX,
        0 < len <= u64::MAX,
        other_count <= u64::MAX,
        0 < other_len <= u64::MAX,
    ensures
        parts_apart(count, len, other_count, other_len) < INFINITE,
        parts_apart(count, len, other_count, other_len) == body(
            DOUBLE as nat,
            difference(DOUBLE as nat, part(count, len), part(other_count, other_len)),
        ),
{
    reveal(parts_apart);
    lemma_format(DOUBLE as nat);
    law_quotients_are_finite(count, len, other_count, other_len);
}

/// Counting by keys is counting by numbers.
pub proof fn lemma_count_by_keys(sample: Seq<u64>, x: u64)
    ensures
        keys_up_to(keys_of(sample), double_key(x) as i64) == count_up_to(sample, x),
    decreases sample.len(),
{
    let keys = keys_of(sample);
    if sample.len() > 0 {
        assert(keys.drop_last() =~= keys_of(sample.drop_last()));
        lemma_count_by_keys(sample.drop_last(), x);
        law_double_key_orders(sample.last(), x);
        law_double_key_orders(x, sample.last());
    }
}

/// The distance by sorted keys is the distance by numbers.
proof fn lemma_distance_by_keys(a: Seq<u64>, b: Seq<u64>, ka: Seq<i64>, kb: Seq<i64>, x: u64)
    requires
        ka.to_multiset() == keys_of(a).to_multiset(),
        kb.to_multiset() == keys_of(b).to_multiset(),
    ensures
        key_distance(ka, kb, double_key(x) as i64) == distance_at(a, b, x),
{
    let k = double_key(x) as i64;
    ka.to_multiset_ensures();
    kb.to_multiset_ensures();
    keys_of(a).to_multiset_ensures();
    keys_of(b).to_multiset_ensures();
    lemma_count_unordered(ka, keys_of(a), k);
    lemma_count_unordered(kb, keys_of(b), k);
    lemma_count_by_keys(a, x);
    lemma_count_by_keys(b, x);
}

/// The distance of two parts.
fn apart(count: usize, len: usize, other_count: usize, other_len: usize) -> (r: u64)
    requires
        len > 0,
        other_len > 0,
    ensures
        r == parts_apart(count as nat, len as nat, other_count as nat, other_len as nat),
        r < INFINITE,
{
    proof {
        reveal(parts_apart);
        lemma_format(DOUBLE as nat);
        lemma_apart_finite(count as nat, len as nat, other_count as nat, other_len as nat);
    }
    let x: u64 = quotient_of(
        DOUBLE,
        integer_of(DOUBLE, count as u64),
        integer_of(DOUBLE, len as u64),
    );
    let y: u64 = quotient_of(
        DOUBLE,
        integer_of(DOUBLE, other_count as u64),
        integer_of(DOUBLE, other_len as u64),
    );
    let d: u64 = difference_of(DOUBLE, x, y);
    if d >= 0x8000_0000_0000_0000 {
        d - 0x8000_0000_0000_0000
    } else {
        d
    }
}

/// What the walk through two sorted samples has found when it has passed the first
/// `i` and the first `j` keys.
spec fn passed(a: Seq<i64>, b: Seq<i64>, i: int, j: int, best: u64) -> bool {
    &&& 0 <= i <= a.len()
    &&& 0 <= j <= b.len()
    &&& forall|k: int| 0 <= k < i ==> key_distance(a, b, #[trigger] a[k]) <= best
    &&& forall|k: int| 0 <= k < j ==> key_distance(a, b, #[trigger] b[k]) <= best
}

/// The best distance so far was found at a key that was passed.
spec fn reached(a: Seq<i64>, b: Seq<i64>, i: int, j: int, best: u64) -> bool {
    ||| exists|k: int| 0 <= k < i && best == key_distance(a, b, #[trigger] a[k])
    ||| exists|k: int| 0 <= k < j && best == key_distance(a, b, #[trigger] b[k])
}

/// Every key that was passed lies below every key that was not.
spec fn split_at(a: Seq<i64>, b: Seq<i64>, i: int, j: int) -> bool {
    &&& forall|k: int, l: int| 0 <= k < i && i <= l < a.len() ==> #[trigger] a[k] < #[trigger] a[l]
    &&& forall|k: int, l: int| 0 <= k < i && j <= l < b.len() ==> #[trigger] a[k] < #[trigger] b[l]
    &&& forall|k: int, l: int| 0 <= k < j && i <= l < a.len() ==> #[trigger] b[k] < #[trigger] a[l]
    &&& forall|k: int, l: int| 0 <= k < j && j <= l < b.len() ==> #[trigger] b[k] < #[trigger] b[l]
}

/// The position behind the keys up to `v`, counted from position `from` on.
fn skip(keys: &Vec<i64>, from: usize, v: i64) -> (r: usize)
    requires
        ascending(keys@),
        from <= keys@.len(),
    ensures
        from <= r <= keys@.len(),
        forall|k: int| from <= k < r ==> #[trigger] keys@[k] <= v,
        forall|k: int| r <= k < keys@.len() ==> #[trigger] keys@[k] > v,
{
    let mut r: usize = from;
    while r < keys.len() && keys[r] <= v
        invariant
            from <= r <= keys@.len(),
            forall|k: int| from <= k < r ==> #[trigger] keys@[k] <= v,
        decreases keys@.len() - r,
    {
        r = r + 1;
    }
    r
}

/// The largest distance between two sorted samples.
fn walk(a: &Vec<i64>, b: &Vec<i64>) -> (best: u64)
    requires
        ascending(a@),
        ascending(b@),
        a@.len() > 0,
        b@.len() > 0,
    ensures
        passed(a@, b@, a@.len() as int, b@.len() as int, best),
        reached(a@, b@, a@.len() as int, b@.len() as int, best),
        best < INFINITE,
{
    let mut best: u64 = 0;
    let mut i: usize = 0;
    let mut j: usize = 0;
    while i < a.len() || j < b.len()
        invariant
            ascending(a@),
            ascending(b@),
            a@.len() > 0,
            b@.len() > 0,
            passed(a@, b@, i as int, j as int, best),
            i + j > 0 ==> reached(a@, b@, i as int, j as int, best),
            i + j == 0 ==> best == 0,
            split_at(a@, b@, i as int, j as int),
            best < INFINITE,
        decreases a@.len() + b@.len() - i - j,
    {
        let v: i64 = if j == b.len() || (i < a.len() && a[i] <= b[j]) {
            a[i]
        } else {
            b[j]
        };
        let next_i: usize = skip(a, i, v);
        let next_j: usize = skip(b, j, v);
        proof {
            assert forall|k: int| 0 <= k < next_i implies #[trigger] a@[k] <= v by {
                if k < i {
                    if j == b@.len() || (i < a@.len() && a@[i as int] <= b@[j as int]) {
                        assert(a@[k] < a@[i as int]);
                    } else {
                        assert(a@[k] < b@[j as int]);
                    }
                }
            }
            assert forall|k: int| 0 <= k < next_j implies #[trigger] b@[k] <= v by {
                if k < j {
                    if j == b@.len() || (i < a@.len() && a@[i as int] <= b@[j as int]) {
                        assert(b@[k] < a@[i as int]);
                    } else {
                        assert(b@[k] < b@[j as int]);
                    }
                }
            }
            assert forall|k: int| i <= k < next_i implies #[trigger] a@[k] == v by {
                assert(a@[i as int] <= a@[k]);
            }
            assert forall|k: int| j <= k < next_j implies #[trigger] b@[k] == v by {
                assert(b@[j as int] <= b@[k]);
            }
            lemma_count_sorted(a@, v, next_i as nat);
            lemma_count_sorted(b@, v, next_j as nat);
        }
        let here: u64 = apart(next_i, a.len(), next_j, b.len());
        assert(here == key_distance(a@, b@, v));
        let ghost before = best;
        if here > best {
            best = here;
        }
        proof {
            assert(next_i > i || next_j > j);
            assert(reached(a@, b@, next_i as int, next_j as int, here)) by {
                if next_i > i {
                    assert(a@[i as int] == v);
                } else {
                    assert(b@[j as int] == v);
                }
            }
            if best != here {
                assert(best == before);
                if exists|k: int| 0 <= k < i && before == key_distance(a@, b@, #[trigger] a@[k]) {
                    let k = choose|k: int|
                        0 <= k < i && before == key_distance(a@, b@, #[trigger] a@[k]);
                    assert(a@[k] == a@[k]);
                }
            }
        }
        i = next_i;
        j = next_j;
    }
    best
}

/// The two-sample Kolmogorov-Smirnov statistic: the largest distance between the
/// empirical distributions, in single precision; one where a sample is empty.
pub open spec fn is_statistic(a: Seq<u64>, b: Seq<u64>, x: Single) -> bool {
    if a.len() == 0 || b.len() == 0 {
        x == of_int(1)
    } else {
        exists|d: u64| #[trigger]
            is_largest_distance(a, b, d) && x.bits == shortened(d as nat)
    }
}

/// The two-sample Kolmogorov-Smirnov statistic of two samples of double-precision
/// numbers.
pub fn ks_test(sample1: &Vec<u64>, sample2: &Vec<u64>) -> (r: Single)
    requires
        sample1@.len() > 0 && sample2@.len() > 0 ==> all_numbers(sample1@) && all_numbers(sample2@),
    ensures
        is_statistic(sample1@, sample2@, r),
{
    if sample1.len() == 0 || sample2.len() == 0 {
        return Single::from_int(1);
    }
    let a = sorted_keys(sample1);
    let b = sorted_keys(sample2);
    let best = walk(&a, &b);
    proof {
        let all = sample1@ + sample2@;
        a@.to_multiset_ensures();
        b@.to_multiset_ensures();
        keys_of(sample1@).to_multiset_ensures();
        keys_of(sample2@).to_multiset_ensures();
        assert forall|k: int| 0 <= k < all.len() implies !double_less(
            best,
            distance_at(sample1@, sample2@, #[trigger] all[k]),
        ) by {
            let key = double_key(all[k]) as i64;
            lemma_distance_by_keys(sample1@, sample2@, a@, b@, all[k]);
            lemma_count_capped(a@, key);
            lemma_count_capped(b@, key);
            lemma_apart_finite(
                keys_up_to(a@, key),
                a@.len(),
                keys_up_to(b@, key),
                b@.len(),
            );
            law_patterns_order_numbers(0, 0, best, key_distance(a@, b@, key));
            if k < sample1@.len() {
                assert(keys_of(sample1@)[k] == key);
                assert(keys_of(sample1@).to_multiset().count(key) > 0);
                assert(a@.contains(key));
            } else {
                assert(keys_of(sample2@)[k - sample1@.len()] == key);
                assert(keys_of(sample2@).to_multiset().count(key) > 0);
                assert(b@.contains(key));
            }
        }
        let (na, nb) = (a@.len() as int, b@.len() as int);
        if exists|k: int| 0 <= k < na && best == key_distance(a@, b@, #[trigger] a@[k]) {
            let k = choose|k: int| 0 <= k < na && best == key_distance(a@, b@, #[trigger] a@[k]);
            assert(a@.contains(a@[k]));
            assert(a@.to_multiset().count(a@[k]) > 0);
            let l = choose|l: int| 0 <= l < na && keys_of(sample1@)[l] == a@[k];
            lemma_distance_by_keys(sample1@, sample2@, a@, b@, sample1@[l]);
            assert(all[l] == sample1@[l]);
        } else {
            let k = choose|k: int| 0 <= k < nb && best == key_distance(a@, b@, #[trigger] b@[k]);
            assert(b@.contains(b@[k]));
            assert(b@.to_multiset().count(b@[k]) > 0);
            let l = choose|l: int| 0 <= l < nb && keys_of(sample2@)[l] == b@[k];
            lemma_distance_by_keys(sample1@, sample2@, a@, b@, sample2@[l]);
            assert(all[na + l] == sample2@[l]);
        }
        assert(is_largest_distance(sample1@, sample2@, best));
    }
    Single { bits: shorten(best) }
}

/// A count does not exceed the size of the sample.
proof fn lemma_up_to_capped(sample: Seq<u64>, x: u64)
    ensures
        count_up_to(sample, x) <= sample.len(),
    decreases sample.len(),
{
    if sample.len() > 0 {
        lemma_up_to_capped(sample.drop_last(), x);
    }
}

/// A distance between distributions is a finite number.
proof fn lemma_distance_finite(a: Seq<u64>, b: Seq<u64>, x: u64)
    requires
        0 < a.len() <= u64::MAX,
        0 < b.len() <= u64::MAX,
    ensures
        distance_at(a, b, x) < INFINITE,
{
    lemma_up_to_capped(a, x);
    lemma_up_to_capped(b, x);
    lemma_apart_finite(count_up_to(a, x), a.len(), count_up_to(b, x), b.len());
}

/// Two samples have one statistic.
pub proof fn law_statistic_is_unique(a: Seq<u64>, b: Seq<u64>, x: Single, y: Single)
    requires
        a.len() <= u64::MAX,
        b.len() <= u64::MAX,
        is_statistic(a, b, x),
        is_statistic(a, b, y),
    ensures
        x == y,
{
    if a.len() > 0 && b.len() > 0 {
        let d = choose|d: u64| #[trigger]
            is_largest_distance(a, b, d) && x.bits == shortened(d as nat);
        let f = choose|d: u64| #[trigger]
            is_largest_distance(a, b, d) && y.bits == shortened(d as nat);
        let j = choose|k: int|
            0 <= k < (a + b).len() && d == distance_at(a, b, #[trigger] (a + b)[k]);
        let k = choose|k: int|
            0 <= k < (a + b).len() && f == distance_at(a, b, #[trigger] (a + b)[k]);
        lemma_distance_finite(a, b, (a + b)[j]);
        lemma_distance_finite(a, b, (a + b)[k]);
        law_patterns_order_numbers(0, 0, d, f);
        law_patterns_order_numbers(0, 0, f, d);
    }
}

/// The distance of two parts does not depend on their order.
proof fn lemma_apart_symmetric(a: nat, b: nat, c: nat, d: nat)
    requires
        a <= u64::MAX,
        0 < b <= u64::MAX,
        c <= u64::MAX,
        0 < d <= u64::MAX,
    ensures
        parts_apart(a, b, c, d) == parts_apart(c, d, a, b),
{
    reveal(parts_apart);
    lemma_format(DOUBLE as nat);
    law_quotients_are_finite(a, b, c, d);
    law_difference_is_symmetric(DOUBLE as nat, part(a, b), part(c, d));
}

/// The statistic does not depend on the order of the two samples.
pub proof fn law_statistic_is_symmetric(a: Seq<u64>, b: Seq<u64>, x: Single)
    requires
        a.len() <= u64::MAX,
        b.len() <= u64::MAX,
        is_statistic(a, b, x),
    ensures
        is_statistic(b, a, x),
{
    if a.len() > 0 && b.len() > 0 {
        let d = choose|d: u64| #[trigger]
            is_largest_distance(a, b, d) && x.bits == shortened(d as nat);
        let (m, n) = (a.len() as int, b.len() as int);
        assert forall|y: u64| #[trigger] distance_at(b, a, y) == distance_at(a, b, y) by {
            lemma_up_to_capped(a, y);
            lemma_up_to_capped(b, y);
            lemma_apart_symmetric(count_up_to(a, y), a.len(), count_up_to(b, y), b.len());
        }
        assert forall|k: int| 0 <= k < (b + a).len() implies !double_less(
            d,
            distance_at(b, a, #[trigger] (b + a)[k]),
        ) by {
            let other = if k < n {
                k + m
            } else {
                k - n
            };
            assert((b + a)[k] == (a + b)[other]);
        }
        let j = choose|k: int|
            0 <= k < (a + b).len() && d == distance_at(a, b, #[trigger] (a + b)[k]);
        let other = if j < m {
            j + n
        } else {
            j - m
        };
        assert((b + a)[other] == (a + b)[j]);
        assert(is_largest_distance(b, a, d));
    }
}

/// The statistic of a sample and itself is zero.
pub proof fn law_statistic_of_equal_samples(a: Seq<u64>, x: Single)
    requires
        0 < a.len() <= u64::MAX,
        is_statistic(a, a, x),
    ensures
        x == zero(),
{
    let d = choose|d: u64| #[trigger]
        is_largest_distance(a, a, d) && x.bits == shortened(d as nat);
    let k = choose|k: int|
        0 <= k < (a + a).len() && d == distance_at(a, a, #[trigger] (a + a)[k]);
    let y = (a + a)[k];
    let c = count_up_to(a, y);
    lemma_up_to_capped(a, y);
    reveal(parts_apart);
    lemma_format(DOUBLE as nat);
    law_quotients_are_finite(c, a.len(), c, a.len());
    law_zero_is_neutral(DOUBLE as nat, part(c, a.len()));
    law_shortened_zero();
}

/// A part of a sample is at most one.
proof fn lemma_part_bounded(count: nat, len: nat)
    requires
        count <= len,
        0 < len <= u64::MAX,
    ensures
        part(count, len) <= part(len, len),
        part(len, len) == integer(DOUBLE as nat, 1),
{
    let half = DOUBLE as nat;
    lemma_format(half);
    lemma_double_integer(len);
    lemma_units_zero(half, integer(half, len));
    lemma_pow2_pos(1074);
    law_integers_keep_order(half, count, len);
    let (c, l) = (integer(half, count), integer(half, len));
    law_quotients_keep_order(half, c, l, l, l);
    law_quotient_of_equals(half, l);
}

/// The distance of two parts is at most one.
proof fn lemma_apart_bounded(count: nat, len: nat, other_count: nat, other_len: nat)
    requires
        count <= len,
        0 < len <= u64::MAX,
        other_count <= other_len,
        0 < other_len <= u64::MAX,
    ensures
        parts_apart(count, len, other_count, other_len) <= integer(DOUBLE as nat, 1),
{
    let half = DOUBLE as nat;
    let one = integer(half, 1);
    lemma_format(half);
    lemma_part_bounded(count, len);
    lemma_part_bounded(other_count, other_len);
    lemma_apart_finite(count, len, other_count, other_len);
    law_integer_is_exact(half, 1);
    law_nearest_to_itself(half, one);
    let (x, y) = (part(count, len), part(other_count, other_len));
    lemma_units_order(half, x, one);
    lemma_units_order(half, y, one);
    let (u, v) = (units(half, x), units(half, y));
    assert(body(half, negated(half, y)) == y);
    if u > v {
        law_nearest_keeps_order(half, (u - v) as nat, 1, units(half, one), 1);
    } else if v > u {
        law_nearest_keeps_order(half, (v - u) as nat, 1, units(half, one), 1);
    }
}

/// One in single precision.
proof fn lemma_shortened_one(d: u64)
    requires
        d <= integer(DOUBLE as nat, 1),
    ensures
        shortened(d as nat) <= of_int(1).bits,
        of_int(1).bits < 0x7f80_0000,
        d == integer(DOUBLE as nat, 1) ==> shortened(d as nat) == of_int(1).bits,
{
    let (half, wide) = (SINGLE as nat, DOUBLE as nat);
    reveal(of_int);
    lemma_format(half);
    lemma_format(wide);
    law_integer_is_exact(half, 1);
    law_integer_is_exact(wide, 1);
    lemma_units_order(wide, d as nat, integer(wide, 1));
    lemma_pow2_adds(149, 925);
    lemma_pow2_pos(925);
    let n = units(wide, d as nat);
    let (p, q) = (pow2(149), pow2(925));
    assert(1 * p == p);
    assert(n * 1 <= (1 * p) * q);
    lemma_packed_order(half, n, q, 1 * p, 1);
    if d == integer(wide, 1) {
        lemma_packed_order(half, 1 * p, 1, n, q);
    }
}

/// The pattern of a statistic.
pub proof fn lemma_statistic_bits(a: Seq<u64>, b: Seq<u64>, x: Single)
    requires
        a.len() <= u64::MAX,
        b.len() <= u64::MAX,
        is_statistic(a, b, x),
    ensures
        x.bits <= of_int(1).bits < 0x7f80_0000,
{
    lemma_shortened_one(0);
    if a.len() > 0 && b.len() > 0 {
        let d = choose|d: u64| #[trigger]
            is_largest_distance(a, b, d) && x.bits == shortened(d as nat);
        let k = choose|k: int|
            0 <= k < (a + b).len() && d == distance_at(a, b, #[trigger] (a + b)[k]);
        let y = (a + b)[k];
        lemma_up_to_capped(a, y);
        lemma_up_to_capped(b, y);
        lemma_apart_bounded(count_up_to(a, y), a.len(), count_up_to(b, y), b.len());
        lemma_shortened_one(d);
    }
}

/// The statistic of two samples is a number between zero and one.
pub proof fn law_statistic_lies_between_zero_and_one(a: Seq<u64>, b: Seq<u64>, x: Single)
    requires
        a.len() <= u64::MAX,
        b.len() <= u64::MAX,
        is_statistic(a, b, x),
    ensures
        !single_is_nan(x.bits),
        !less(x, zero()),
        !less(of_int(1), x),
{
    lemma_statistic_bits(a, b, x);
    lemma_less_by_bits(x, zero());
    lemma_less_by_bits(of_int(1), x);
}

/// Every value of one sample lies below every value of the other.
pub open spec fn below(a: Seq<u64>, b: Seq<u64>) -> bool {
    forall|i: int, j: int|
        0 <= i < a.len() && 0 <= j < b.len() ==> double_value(#[trigger] a[i]) < double_value(
            #[trigger] b[j],
        )
}

/// A sample has a largest element.
proof fn lemma_largest(a: Seq<u64>) -> (k: int)
    requires
        a.len() > 0,
    ensures
        0 <= k < a.len(),
        forall|i: int| 0 <= i < a.len() ==> double_value(#[trigger] a[i]) <= double_value(a[k]),
    decreases a.len(),
{
    let last = a.len() - 1;
    if last == 0 {
        0
    } else {
        let k = lemma_largest(a.drop_last());
        assert forall|i: int| 0 <= i < last implies double_value(#[trigger] a[i]) <= double_value(
            a[k],
        ) by {
            assert(a.drop_last()[i] == a[i]);
        }
        if double_value(a[k]) <= double_value(a[last]) {
            last
        } else {
            k
        }
    }
}

/// A number that no element exceeds, or that every element exceeds.
proof fn lemma_count_extremes(a: Seq<u64>, x: u64)
    ensures
        (forall|i: int| 0 <= i < a.len() ==> double_value(#[trigger] a[i]) <= double_value(x))
            ==> count_up_to(a, x) == a.len(),
        (forall|i: int| 0 <= i < a.len() ==> double_value(x) < double_value(#[trigger] a[i]))
            ==> count_up_to(a, x) == 0,
    decreases a.len(),
{
    if a.len() > 0 {
        let front = a.drop_last();
        lemma_count_extremes(front, x);
        assert(forall|i: int| 0 <= i < front.len() ==> #[trigger] front[i] == a[i]);
        assert(a.last() == a[a.len() - 1]);
    }
}

/// The statistic of samples that lie apart, one below the other, is one.
pub proof fn law_statistic_of_separate_samples(a: Seq<u64>, b: Seq<u64>, x: Single)
    requires
        a.len() <= u64::MAX,
        b.len() <= u64::MAX,
        below(a, b) || below(b, a),
        is_statistic(a, b, x),
    ensures
        x == of_int(1),
{
    if a.len() > 0 && b.len() > 0 {
        if below(a, b) {
            lemma_separate(a, b, x);
        } else {
            law_statistic_is_symmetric(a, b, x);
            lemma_separate(b, a, x);
        }
    }
}

/// The statistic of a sample that lies below another.
proof fn lemma_separate(a: Seq<u64>, b: Seq<u64>, x: Single)
    requires
        0 < a.len() <= u64::MAX,
        0 < b.len() <= u64::MAX,
        below(a, b),
        is_statistic(a, b, x),
    ensures
        x == of_int(1),
{
    let half = DOUBLE as nat;
    let one = integer(half, 1);
    let m = lemma_largest(a);
    let top = (a + b)[m];
    assert(top == a[m]);
    assert forall|j: int| 0 <= j < b.len() implies double_value(top) < double_value(
        #[trigger] b[j],
    ) by {}
    lemma_count_extremes(a, top);
    lemma_count_extremes(b, top);
    lemma_format(half);
    lemma_part_bounded(a.len(), a.len());
    lemma_double_integer(b.len());
    lemma_units_zero(half, integer(half, b.len()));
    lemma_pow2_pos(1074);
    law_integer_is_exact(half, 0);
    lemma_units_zero(half, integer(half, 0));
    law_integer_is_exact(half, 1);
    law_quotient_of_zero(half, integer(half, b.len()));
    lemma_units_zero(half, one);
    law_zero_is_neutral(half, one);
    lemma_apart_finite(a.len(), a.len(), 0, b.len());
    assert(distance_at(a, b, top) == one);
    let d = choose|d: u64| #[trigger]
        is_largest_distance(a, b, d) && x.bits == shortened(d as nat);
    let k = choose|k: int|
        0 <= k < (a + b).len() && d == distance_at(a, b, #[trigger] (a + b)[k]);
    let y = (a + b)[k];
    lemma_up_to_capped(a, y);
    lemma_up_to_capped(b, y);
    lemma_apart_bounded(count_up_to(a, y), a.len(), count_up_to(b, y), b.len());
    law_patterns_order_numbers(0, 0, d, distance_at(a, b, top));
    lemma_shortened_one(d);
}

/// What a removed element counted.
proof fn lemma_up_to_removed(a: Seq<u64>, j: int, x: u64)
    requires
        0 <= j < a.len(),
    ensures
        count_up_to(a, x) == count_up_to(a.remove(j), x) + if double_value(a[j]) <= double_value(
            x,
        ) {
            1nat
        } else {
            0
        },
    decreases a.len(),
{
    let rest = a.remove(j);
    if j == a.len() - 1 {
        assert(rest =~= a.drop_last());
    } else {
        assert(rest.drop_last() =~= a.drop_last().remove(j));
        assert(rest.last() == a.last());
        lemma_up_to_removed(a.drop_last(), j, x);
    }
}

/// A count does not depend on the order of the sample.
proof fn lemma_up_to_unordered(a: Seq<u64>, b: Seq<u64>, x: u64)
    requires
        a.to_multiset() == b.to_multiset(),
    ensures
        count_up_to(a, x) == count_up_to(b, x),
        a.len() == b.len(),
    decreases a.len(),
{
    a.to_multiset_ensures();
    b.to_multiset_ensures();
    if a.len() > 0 {
        let last = a.len() - 1;
        assert(a.contains(a[last]));
        assert(a.to_multiset().count(a[last]) > 0);
        assert(b.contains(a[last]));
        let j = choose|j: int| 0 <= j < b.len() && b[j] == a[last];
        lemma_up_to_removed(a, last, x);
        lemma_up_to_removed(b, j, x);
        assert(a.remove(last).to_multiset() == b.remove(j).to_multiset());
        lemma_up_to_unordered(a.remove(last), b.remove(j), x);
    }
}

/// The statistic does not depend on the order within a sample.
pub proof fn law_statistic_ignores_order(a: Seq<u64>, c: Seq<u64>, b: Seq<u64>, x: Single)
    requires
        a.to_multiset() == c.to_multiset(),
        is_statistic(a, b, x),
    ensures
        is_statistic(c, b, x),
{
    lemma_up_to_unordered(a, c, 0);
    if a.len() > 0 && b.len() > 0 {
        let n = a.len() as int;
        let d = choose|d: u64| #[trigger]
            is_largest_distance(a, b, d) && x.bits == shortened(d as nat);
        assert forall|y: u64| #[trigger] distance_at(c, b, y) == distance_at(a, b, y) by {
            lemma_up_to_unordered(a, c, y);
        }
        a.to_multiset_ensures();
        c.to_multiset_ensures();
        assert forall|k: int| 0 <= k < (c + b).len() implies !double_less(
            d,
            distance_at(c, b, #[trigger] (c + b)[k]),
        ) by {
            if k < n {
                assert(c.contains(c[k]));
                assert(c.to_multiset().count(c[k]) > 0);
                let l = choose|l: int| 0 <= l < n && a[l] == c[k];
                assert((a + b)[l] == (c + b)[k]);
            } else {
                assert((a + b)[k] == (c + b)[k]);
            }
        }
        let j = choose|k: int|
            0 <= k < (a + b).len() && d == distance_at(a, b, #[trigger] (a + b)[k]);
        if j < n {
            assert(a.contains(a[j]));
            assert(a.to_multiset().count(a[j]) > 0);
            let l = choose|l: int| 0 <= l < n && c[l] == a[j];
            assert((c + b)[l] == (a + b)[j]);
        } else {
            assert((c + b)[j] == (a + b)[j]);
        }
        assert(is_largest_distance(c, b, d));
    }
}

/// The part `count / len` of a sample, in units of `2^-1074`, is exact to within `2^-52`.
proof fn lemma_part_close(count: nat, len: nat)
    requires
        count <= len,
        0 < len < 0x10_0000_0000_0000,
    ensures
        part(count, len) < infinity(DOUBLE as nat),
        ({
            let w = pow2(1074) as int;
            let n = units(DOUBLE as nat, part(count, len)) * len;
            &&& -(len * w) <= (n - count * w) * 0x10_0000_0000_0000 <= len * w
            &&& units(DOUBLE as nat, part(count, len)) <= w
        }),
{
    let wide = DOUBLE as nat;
    let w = pow2(1074);
    lemma_format(wide);
    lemma_pow2_pos(1074);
    lemma_pow2_strictly_increases(52, 1074);
    lemma2_to64_rest();
    law_integer_is_exact(wide, count);
    law_integer_is_exact(wide, len);
    let (u, v) = (count * w, len * w);
    assert(v > 0 && (u * w) * 1 <= w * v) by (nonlinear_arith)
        requires
            u == count * w,
            v == len * w,
            count <= len,
            len > 0,
            w > 0,
    ;
    law_integer_is_exact(wide, 1);
    let one = integer(wide, 1);
    law_nearest_to_itself(wide, one);
    law_nearest_keeps_order(wide, u * w, v, w, 1);
    let q = part(count, len);
    assert(q == nearest(wide, u * w, v));
    lemma_units_order(wide, q, one);
    lemma_nearest_common_factor(wide, u, len, w);
    assert(u * w == w * u && v == w * len) by (nonlinear_arith)
        requires
            v == len * w,
    ;
    lemma_rounding_bound(wide, u, len);
    assert(u + wide * len <= 2 * (len * w)) by (nonlinear_arith)
        requires
            u == count * w,
            count <= len,
            wide <= w,
    ;
    let n = (units(wide, q) * len) as int;
    assert((n - u) * (2 * wide) == 2 * ((n - u) * wide)) by (nonlinear_arith);
}

/// The distance of two parts, in units of `2^-1074`, is exact to within `2^-40`.
proof fn lemma_apart_close(count: nat, len: nat, other_count: nat, other_len: nat)
    requires
        count <= len,
        0 < len < 0x10_0000_0000_0000,
        other_count <= other_len,
        0 < other_len < 0x10_0000_0000_0000,
    ensures
        ({
            let w = pow2(1074) as int;
            let u = units(
                DOUBLE as nat,
                parts_apart(count, len, other_count, other_len) as nat,
            ) as int;
            let both = (len * other_len) as int;
            let e = count * other_len - other_count * len;
            let exact = if e >= 0 {
                e
            } else {
                -e
            };
            &&& -(both * w) <= (exact * w - u * both) * 0x100_0000_0000 <= both * w
            &&& u <= w
        }),
{
    let wide = DOUBLE as nat;
    let w = pow2(1074) as int;
    let (n, m) = (len as int, other_len as int);
    lemma_format(wide);
    lemma_pow2_pos(1074);
    lemma_pow2_strictly_increases(63, 1074);
    lemma2_to64_rest();
    lemma_part_close(count, len);
    lemma_part_close(other_count, other_len);
    lemma_apart_finite(count, len, other_count, other_len);
    let (x, y) = (part(count, len), part(other_count, other_len));
    let (a, b) = (units(wide, x) as int, units(wide, y) as int);
    assert(body(wide, negated(wide, y)) == y);
    let t = if a >= b {
        a - b
    } else {
        b - a
    };
    let d = body(wide, difference(wide, x, y));
    lemma_units_zero(wide, 0);
    law_nearest_to_itself(wide, 0);
    assert(d == nearest(wide, t as nat, 1)) by {
        law_integer_is_exact(wide, 1);
        law_nearest_to_itself(wide, integer(wide, 1));
        law_nearest_keeps_order(wide, t as nat, 1, w as nat, 1);
    }
    law_integer_is_exact(wide, 1);
    law_nearest_to_itself(wide, integer(wide, 1));
    law_nearest_keeps_order(wide, t as nat, 1, w as nat, 1);
    lemma_units_order(wide, d, integer(wide, 1));
    lemma_rounding_bound(wide, t as nat, 1);
    let u = units(wide, d) as int;
    assert(-(t + wide) <= (u - t) * (2 * wide) <= t + wide);
    assert(-w <= (u - t) * 0x8_0000_0000_0000 <= w);
    let (al, be) = (a * n - count * w, b * m - other_count * w);
    let e = count * m - other_count * n;
    let s = a - b;
    let both = n * m;
    assert(both > 0 && both * w > 0) by (nonlinear_arith)
        requires
            both == n * m,
            n > 0,
            m > 0,
            w > 0,
    ;
    lemma_apart_split(a, b, n, m, count as int, other_count as int, w);
    lemma_apart_scaled(al, n, m, w, 0x10_0000_0000_0000);
    lemma_apart_scaled(be, m, n, w, 0x10_0000_0000_0000);
    assert(m * n == both) by (nonlinear_arith)
        requires
            both == n * m,
    ;
    assert(u * both - t * both == both * (u - t)) by (nonlinear_arith);
    lemma_apart_scaled(u - t, 1, both, w, 0x8_0000_0000_0000);
    assert(1 * w == w && 1 * both == both);
    let z = both * w;
    let exact = if e >= 0 {
        e
    } else {
        -e
    };
    assert((-s) * both == -(s * both) && (-e) * w == -(e * w)) by (nonlinear_arith);
    assert(t * both == s * both || t * both == -(s * both));
    // The exact distance and the computed one differ by what the parts differ.
    assert(s >= 0 ==> t * both == s * both);
    assert(s < 0 ==> t * both == -(s * both));
    let ew = exact * w;
    let sb = s * both;
    let tb = t * both;
    let ub = u * both;
    assert(e >= 0 ==> e * w >= 0) by (nonlinear_arith)
        requires
            w > 0,
    ;
    assert(e < 0 ==> e * w <= 0) by (nonlinear_arith)
        requires
            w > 0,
    ;
    assert(tb >= 0) by (nonlinear_arith)
        requires
            tb == t * both,
            t >= 0,
            both > 0,
    ;
    lemma_apart_sums(e * w, ew, sb, tb, ub, m * al, n * be, z);
}

/// The distance of two parts in terms of what they differ from the exact ones.
proof fn lemma_apart_split(a: int, b: int, n: int, m: int, c: int, o: int, w: int)
    ensures
        (a - b) * (n * m) == (c * m - o * n) * w + m * (a * n - c * w) - n * (b * m - o * w),
{
    let (cw, ow, an, bm) = (c * w, o * w, a * n, b * m);
    assert((a - b) * (n * m) == a * (n * m) - b * (n * m)) by (nonlinear_arith);
    assert(a * (n * m) == m * (a * n)) by (nonlinear_arith);
    assert(b * (n * m) == n * (b * m)) by (nonlinear_arith);
    assert(m * (an - cw) == m * an - m * cw) by (nonlinear_arith);
    assert(n * (bm - ow) == n * bm - n * ow) by (nonlinear_arith);
    assert((c * m - o * n) * w == (c * m) * w - (o * n) * w) by (nonlinear_arith);
    assert((c * m) * w == m * (c * w)) by (nonlinear_arith);
    assert((o * n) * w == n * (o * w)) by (nonlinear_arith);
}

/// A bound times a factor.
proof fn lemma_apart_scaled(x: int, n: int, m: int, w: int, h: int)
    requires
        -(n * w) <= x * h <= n * w,
        m > 0,
    ensures
        -((n * m) * w) <= (m * x) * h <= (n * m) * w,
{
    let (k, y) = (n * w, x * h);
    assert((m * x) * h == m * (x * h)) by (nonlinear_arith);
    assert((n * m) * w == m * (n * w)) by (nonlinear_arith);
    assert(m * (-k) <= m * y <= m * k) by (nonlinear_arith)
        requires
            -k <= y <= k,
            m > 0,
    ;
    assert(m * (-k) == -(m * k)) by (nonlinear_arith);
}

/// The errors of the single steps add up to little.
proof fn lemma_apart_sums(
    signed: int,
    exact: int,
    sb: int,
    tb: int,
    ub: int,
    x: int,
    y: int,
    z: int,
)
    requires
        z > 0,
        exact == if signed >= 0 {
            signed
        } else {
            -signed
        },
        sb == signed + x - y,
        tb >= 0,
        tb == sb || tb == -sb,
        -z <= x * 0x10_0000_0000_0000 <= z,
        -z <= y * 0x10_0000_0000_0000 <= z,
        -z <= (ub - tb) * 0x8_0000_0000_0000 <= z,
    ensures
        -z <= (exact - ub) * 0x100_0000_0000 <= z,
{
}

/// The statistic of two samples is the largest distance between the shares of their elements
/// up to a number: at no element of either sample do the shares lie further apart, and at some
/// element they lie as far apart; to within `2^-20`. The statistic is in units of `2^-149`.
pub proof fn law_statistic_is_the_largest_distance(a: Seq<u64>, b: Seq<u64>, x: Single)
    requires
        0 < a.len() < 0x10_0000_0000_0000,
        0 < b.len() < 0x10_0000_0000_0000,
        is_statistic(a, b, x),
    ensures
        ({
            let one = pow2(149) as int;
            let both = (a.len() * b.len()) as int;
            let s = single_value(x.bits) * both;
            &&& forall|k: int|
                0 <= k < (a + b).len() ==> (share_distance(a, b, #[trigger] (a + b)[k]) * one - s)
                    * 0x10_0000 <= both * one
            &&& exists|k: int|
                0 <= k < (a + b).len() && -(both * one) <= (share_distance(
                    a,
                    b,
                    #[trigger] (a + b)[k],
                ) * one - s) * 0x10_0000
        }),
{
    let wide = DOUBLE as nat;
    let half = SINGLE as nat;
    let (p, c, w) = (pow2(149) as int, pow2(925) as int, pow2(1074) as int);
    let both = (a.len() * b.len()) as int;
    lemma_format(wide);
    lemma_format(half);
    lemma_pow2_pos(925);
    lemma_pow2_pos(149);
    lemma_pow2_adds(149, 925);
    lemma_pow2_strictly_increases(63, 149);
    lemma2_to64_rest();
    lemma2_to64();
    assert(both > 0) by (nonlinear_arith)
        requires
            both == a.len() * b.len(),
            a.len() > 0,
            b.len() > 0,
    ;
    let d = choose|d: u64| #[trigger]
        is_largest_distance(a, b, d) && x.bits == shortened(d as nat);
    let j = choose|k: int| 0 <= k < (a + b).len() && d == distance_at(a, b, #[trigger] (a + b)[k]);
    let top = (a + b)[j];
    lemma_share_close(a, b, top);
    let u = units(wide, d as nat) as int;
    // The statistic in single precision.
    lemma_statistic_bits(a, b, x);
    lemma_distance_finite(a, b, top);
    let g = units(half, x.bits as nat) as int;
    law_integer_is_exact(half, 1);
    law_nearest_to_itself(half, integer(half, 1));
    assert(u * 1 <= p * c);
    law_nearest_keeps_order(half, u as nat, c as nat, p as nat, 1);
    assert(x.bits == nearest(half, u as nat, c as nat));
    lemma_rounding_bound(half, u as nat, c as nat);
    law_values_agree(0, x.bits);
    assert((half * c) * 0x100_0000 <= w) by (nonlinear_arith)
        requires
            w == p * c,
            p >= half * 0x100_0000,
            c > 0,
    ;
    assert(-w <= (g * c - u) * 0x80_0000 <= w) by {
        assert(-(u + half * c) <= (g * c - u) * 0x100_0000 <= u + half * c);
    }
    let s = single_value(x.bits) * both;
    assert(s == g * both);
    lemma_scaled_gap(g, u, c, p, w, both);
    assert forall|k: int| 0 <= k < (a + b).len() implies (share_distance(
        a,
        b,
        #[trigger] (a + b)[k],
    ) * p - s) * 0x10_0000 <= both * p by {
        let y = (a + b)[k];
        lemma_share_close(a, b, y);
        lemma_distance_finite(a, b, y);
        let v = units(wide, distance_at(a, b, y) as nat) as int;
        law_values_agree(d, 0);
        law_values_agree(distance_at(a, b, y), 0);
        assert(!double_less(d, distance_at(a, b, y)));
        assert(v <= u);
        lemma_statement(share_distance(a, b, y), v, u, g, both, p, c, w);
    }
    lemma_statement_below(share_distance(a, b, top), u, g, both, p, c, w);
}

/// How far apart the shares of two samples up to a number are, times both lengths.
pub open spec fn share_distance(a: Seq<u64>, b: Seq<u64>, x: u64) -> int {
    let up_to = |t: u64| double_value(t) <= double_value(x);
    let e = a.filter(up_to).len() * b.len() - b.filter(up_to).len() * a.len();
    if e >= 0 {
        e
    } else {
        -e
    }
}

/// Counting elements up to a number is counting those that pass the test.
proof fn lemma_up_to_filtered(sample: Seq<u64>, x: u64)
    ensures
        count_up_to(sample, x) == sample.filter(
            |t: u64| double_value(t) <= double_value(x),
        ).len(),
        count_up_to(sample, x) <= sample.len(),
    decreases sample.len(),
{
    reveal(Seq::filter);
    if sample.len() > 0 {
        lemma_up_to_filtered(sample.drop_last(), x);
    }
}

/// The distance at a number is exact to within `2^-40`.
proof fn lemma_share_close(a: Seq<u64>, b: Seq<u64>, x: u64)
    requires
        0 < a.len() < 0x10_0000_0000_0000,
        0 < b.len() < 0x10_0000_0000_0000,
    ensures
        ({
            let w = pow2(1074) as int;
            let u = units(DOUBLE as nat, distance_at(a, b, x) as nat) as int;
            let both = (a.len() * b.len()) as int;
            &&& -(both * w) <= (share_distance(a, b, x) * w - u * both) * 0x100_0000_0000 <= both
                * w
            &&& u <= w
        }),
{
    lemma_up_to_filtered(a, x);
    lemma_up_to_filtered(b, x);
    lemma_apart_close(count_up_to(a, x), a.len(), count_up_to(b, x), b.len());
}

/// A rounded number times the lengths.
proof fn lemma_scaled_gap(g: int, u: int, c: int, p: int, w: int, both: int)
    requires
        -w <= (g * c - u) * 0x80_0000 <= w,
        w == p * c,
        both > 0,
    ensures
        -(both * w) <= ((g * both) * c - u * both) * 0x80_0000 <= both * w,
{
    let r = (g * c - u) * 0x80_0000;
    assert(((g * both) * c - u * both) * 0x80_0000 == r * both) by (nonlinear_arith)
        requires
            r == (g * c - u) * 0x80_0000,
    ;
    assert(-(both * w) <= r * both <= both * w) by (nonlinear_arith)
        requires
            -w <= r <= w,
            both > 0,
    ;
}

/// A distance that is not above the largest one is not above the statistic.
proof fn lemma_statement(e: int, v: int, u: int, g: int, both: int, p: int, c: int, w: int)
    requires
        v <= u,
        (e * w - v * both) * 0x100_0000_0000 <= both * w,
        -(both * w) <= ((g * both) * c - u * both) * 0x80_0000,
        w == p * c,
        both > 0,
        c > 0,
        p > 0,
    ensures
        (e * p - g * both) * 0x10_0000 <= both * p,
{
    let z = both * p;
    assert(both * w == z * c && e * w == (e * p) * c) by (nonlinear_arith)
        requires
            w == p * c,
            z == both * p,
    ;
    assert(v * both <= u * both) by (nonlinear_arith)
        requires
            v <= u,
            both > 0,
    ;
    let l = e * p - g * both;
    assert((e * p) * c - (g * both) * c == l * c) by (nonlinear_arith)
        requires
            l == e * p - g * both,
    ;
    assert(z * c >= 0) by (nonlinear_arith)
        requires
            z == both * p,
            both > 0,
            p > 0,
            c > 0,
    ;
    assert((l * c) * 0x10_0000 <= z * c);
    assert(l * 0x10_0000 <= z) by (nonlinear_arith)
        requires
            (l * c) * 0x10_0000 <= z * c,
            c > 0,
    ;
}

/// The largest distance is not below the statistic.
proof fn lemma_statement_below(e: int, u: int, g: int, both: int, p: int, c: int, w: int)
    requires
        -(both * w) <= (e * w - u * both) * 0x100_0000_0000,
        ((g * both) * c - u * both) * 0x80_0000 <= both * w,
        w == p * c,
        both > 0,
        c > 0,
        p > 0,
    ensures
        -(both * p) <= (e * p - g * both) * 0x10_0000,
{
    let z = both * p;
    assert(both * w == z * c && e * w == (e * p) * c) by (nonlinear_arith)
        requires
            w == p * c,
            z == both * p,
    ;
    let l = e * p - g * both;
    assert((e * p) * c - (g * both) * c == l * c) by (nonlinear_arith)
        requires
            l == e * p - g * both,
    ;
    assert(z * c >= 0) by (nonlinear_arith)
        requires
            z == both * p,
            both > 0,
            p > 0,
            c > 0,
    ;
    assert(-(z * c) <= (l * c) * 0x10_0000);
    assert(-z <= l * 0x10_0000) by (nonlinear_arith)
        requires
            -(z * c) <= (l * c) * 0x10_0000,
            c > 0,
    ;
}

/// A sample without elements has the statistic one against any other.
pub proof fn law_empty_samples_are_unlike(a: Seq<u64>, b: Seq<u64>, x: Single)
    requires
        a.len() == 0 || b.len() == 0,
        is_statistic(a, b, x),
    ensures
        x == of_int(1),
{
}

} // verus!
