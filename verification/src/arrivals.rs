//! Statistics of inter-arrival times and entropies: floating-point samples, held as
//! bit patterns.
use crate::ieee::{
    difference, difference_of, integer, integer_of, is_pattern, lemma_format, product, product_of,
    quotient, quotient_of, square_root, square_root_of, sum, sum_of,
};
use crate::single::Single;
use crate::soft_float::{is_format, DOUBLE, SINGLE};
use vstd::prelude::*;

verus! {

/// All elements of a sample are patterns of the format.
pub open spec fn all_patterns(half: nat, sample: Seq<u64>) -> bool {
    forall|i: int| 0 <= i < sample.len() ==> is_pattern(half, #[trigger] sample[i] as nat)
}

/// The sum of a sample, added from the first element to the last.
pub open spec fn total(half: nat, sample: Seq<u64>) -> nat
    decreases sample.len(),
{
    if sample.len() == 0 {
        0
    } else {
        sum(half, total(half, sample.drop_last()), sample.last() as nat)
    }
}

/// The mean of a sample; zero where it is empty.
pub open spec fn mean(half: nat, sample: Seq<u64>) -> nat {
    if sample.len() == 0 {
        0
    } else {
        quotient(half, total(half, sample), integer(half, sample.len()))
    }
}

/// The square of the distance of two numbers.
pub open spec fn squared(half: nat, x: nat, centre: nat) -> nat {
    let d = difference(half, x, centre);
    product(half, d, d)
}

/// The sum of the squared distances of a sample from `centre`.
pub open spec fn squared_total(half: nat, sample: Seq<u64>, centre: nat) -> nat
    decreases sample.len(),
{
    if sample.len() == 0 {
        0
    } else {
        sum(
            half,
            squared_total(half, sample.drop_last(), centre),
            squared(half, sample.last() as nat, centre),
        )
    }
}

/// The standard deviation of a sample; zero where it is empty.
pub open spec fn deviation(half: nat, sample: Seq<u64>) -> nat {
    if sample.len() == 0 {
        0
    } else {
        square_root(
            half,
            quotient(
                half,
                squared_total(half, sample, mean(half, sample)),
                integer(half, sample.len()),
            ),
        )
    }
}

/// The mean of a sample.
pub fn mean_of(half: u64, data: &Vec<u64>) -> (r: u64)
    requires
        is_format(half as nat),
        all_patterns(half as nat, data@),
    ensures
        r == mean(half as nat, data@),
        is_pattern(half as nat, r as nat),
{
    proof {
        lemma_format(half as nat);
    }
    if data.len() == 0 {
        return 0;
    }
    let mut acc: u64 = 0;
    let mut i: usize = 0;
    assert(data@.take(0) =~= Seq::<u64>::empty());
    while i < data.len()
        invariant
            i <= data@.len(),
            is_format(half as nat),
            all_patterns(half as nat, data@),
            acc == total(half as nat, data@.take(i as int)),
            is_pattern(half as nat, acc as nat),
        decreases data@.len() - i,
    {
        proof {
            let next = data@.take(i + 1);
            assert(next.drop_last() =~= data@.take(i as int));
            assert(next.last() == data@[i as int]);
        }
        acc = sum_of(half, acc, data[i]);
        i = i + 1;
    }
    assert(data@.take(i as int) =~= data@);
    quotient_of(half, acc, integer_of(half, data.len() as u64))
}

/// The mean of double-precision numbers.
pub fn mean_f64(data: &Vec<u64>) -> (r: u64)
    ensures
        r == mean(DOUBLE as nat, data@),
{
    proof {
        lemma_format(DOUBLE as nat);
    }
    mean_of(DOUBLE, data)
}

/// The mean of single-precision numbers.
pub fn mean_f32(data: &Vec<u64>) -> (r: Single)
    requires
        all_patterns(SINGLE as nat, data@),
    ensures
        r.bits == mean(SINGLE as nat, data@),
{
    proof {
        lemma_format(SINGLE as nat);
    }
    Single { bits: mean_of(SINGLE, data) as u32 }
}

/// The standard deviation of double-precision numbers.
pub fn std_dev_f64(data: &Vec<u64>) -> (r: u64)
    ensures
        r == deviation(DOUBLE as nat, data@),
{
    proof {
        lemma_format(DOUBLE as nat);
    }
    if data.len() == 0 {
        return 0;
    }
    let centre: u64 = mean_f64(data);
    let mut acc: u64 = 0;
    let mut i: usize = 0;
    assert(data@.take(0) =~= Seq::<u64>::empty());
    while i < data.len()
        invariant
            i <= data@.len(),
            centre == mean(DOUBLE as nat, data@),
            acc == squared_total(DOUBLE as nat, data@.take(i as int), centre as nat),
            forall|a: u64| is_pattern(DOUBLE as nat, a as nat),
        decreases data@.len() - i,
    {
        proof {
            let next = data@.take(i + 1);
            assert(next.drop_last() =~= data@.take(i as int));
            assert(next.last() == data@[i as int]);
        }
        let d: u64 = difference_of(DOUBLE, data[i], centre);
        acc = sum_of(DOUBLE, acc, product_of(DOUBLE, d, d));
        i = i + 1;
    }
    assert(data@.take(i as int) =~= data@);
    let variance: u64 = quotient_of(DOUBLE, acc, integer_of(DOUBLE, data.len() as u64));
    square_root_of(DOUBLE, variance)
}

} // verus!
