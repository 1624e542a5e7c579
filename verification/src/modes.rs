//! Modes of packet sizes: the peaks of a histogram.
use crate::single::{
    fraction, larger, law_whole_is_capped, minus, of_int, over, plus, root, square, times, whole,
    zero, Single,
};
use crate::stats::{deviation, mean, mean_u16, share, share_of, std_dev_u16};
use vstd::prelude::*;

verus! {

/// A peak of a distribution.
#[derive(Debug, Clone, Copy, PartialEq, Eq, Structural)]
pub struct Mode {
    pub center: Single,
    pub std_dev: Single,
    /// The share of the packets that fall into the peak's bin.
    pub weight: Single,
}

/// The smallest element.
pub open spec fn smallest(sizes: Seq<u16>) -> u16
    decreases sizes.len(),
{
    if sizes.len() <= 1 {
        sizes[0]
    } else {
        let rest = smallest(sizes.drop_last());
        if sizes.last() < rest {
            sizes.last()
        } else {
            rest
        }
    }
}

/// The largest element.
pub open spec fn largest(sizes: Seq<u16>) -> u16
    decreases sizes.len(),
{
    if sizes.len() <= 1 {
        sizes[0]
    } else {
        let rest = largest(sizes.drop_last());
        if sizes.last() > rest {
            sizes.last()
        } else {
            rest
        }
    }
}

/// The width of the bins between `low` and `high`: at least one.
pub open spec fn bin_width(low: u16, high: u16, num_bins: nat) -> Single {
    larger(
        over(of_int((high - low) as nat), of_int(num_bins)),
        of_int(1),
    )
}

/// The bin of a size; the last bin takes what lies beyond it.
pub open spec fn bin_of(size: u16, low: u16, width: Single, num_bins: nat) -> nat {
    whole(
        over(minus(of_int(size as nat), of_int(low as nat)), width),
        (num_bins - 1) as nat,
    )
}

/// The number of sizes in a bin.
pub open spec fn bin_count(sizes: Seq<u16>, low: u16, width: Single, num_bins: nat, bin: nat) -> nat
    decreases sizes.len(),
{
    if sizes.len() == 0 {
        0
    } else {
        bin_count(sizes.drop_last(), low, width, num_bins, bin) + if bin_of(
            sizes.last(),
            low,
            width,
            num_bins,
        ) == bin {
            1nat
        } else {
            0
        }
    }
}

/// The histogram of sizes: the number of sizes in each bin.
pub open spec fn histogram(sizes: Seq<u16>, low: u16, width: Single, num_bins: nat) -> Seq<nat> {
    Seq::new(num_bins, |bin: int| bin_count(sizes, low, width, num_bins, bin as nat))
}

/// The centre of a bin.
pub open spec fn bin_center(low: u16, width: Single, bin: nat) -> Single {
    plus(of_int(low as nat), times(plus(of_int(bin), fraction(1, 2)), width))
}

/// The squared distances of the bin centres from `center`, weighted by the counts
/// and added from the first bin to the last.
pub open spec fn spread(counts: Seq<nat>, low: u16, width: Single, center: Single) -> Single
    decreases counts.len(),
{
    if counts.len() == 0 {
        zero()
    } else {
        let before = spread(counts.drop_last(), low, width, center);
        let bin = (counts.len() - 1) as nat;
        if counts.last() > 0 {
            plus(
                before,
                times(
                    of_int(counts.last()),
                    square(minus(bin_center(low, width, bin), center)),
                ),
            )
        } else {
            before
        }
    }
}

/// The mode at a bin.
pub open spec fn peak_at(counts: Seq<nat>, low: u16, width: Single, len: nat, bin: nat) -> Mode {
    let center = bin_center(low, width, bin);
    Mode {
        center,
        std_dev: root(over(spread(counts, low, width, center), of_int(len))),
        weight: share(counts[bin as int], len),
    }
}

/// The number of sizes as a single-precision number brought back to an integer.
pub open spec fn rounded_len(len: nat) -> nat {
    whole(of_int(len), u64::MAX as nat)
}

/// A bin is a peak if it has more sizes than both its neighbours and more than a
/// twentieth of all.
pub open spec fn is_peak(counts: Seq<nat>, len: nat, bin: int) -> bool {
    &&& 1 <= bin < counts.len() - 1
    &&& counts[bin] > counts[bin - 1]
    &&& counts[bin] > counts[bin + 1]
    &&& counts[bin] > rounded_len(len) / 20
}

/// The modes of the first `n` bins.
pub open spec fn peaks_below(
    counts: Seq<nat>,
    low: u16,
    width: Single,
    len: nat,
    n: nat,
) -> Seq<Mode>
    decreases n,
{
    if n == 0 {
        Seq::empty()
    } else {
        let before = peaks_below(counts, low, width, len, (n - 1) as nat);
        if is_peak(counts, len, n - 1) {
            before.push(peak_at(counts, low, width, len, (n - 1) as nat))
        } else {
            before
        }
    }
}

/// The modes of packet sizes: the peaks of their histogram; where it has none,
/// one mode that covers all sizes, and for no sizes at all a default.
pub open spec fn size_modes(sizes: Seq<u16>, num_bins: nat) -> Seq<Mode> {
    if sizes.len() == 0 {
        seq![
            Mode { center: of_int(64), std_dev: of_int(32), weight: of_int(1) },
        ]
    } else {
        let low = smallest(sizes);
        let width = bin_width(low, largest(sizes), num_bins);
        let counts = histogram(sizes, low, width, num_bins);
        let found = peaks_below(counts, low, width, sizes.len(), num_bins);
        if found.len() == 0 {
            seq![Mode { center: mean(sizes), std_dev: deviation(sizes), weight: of_int(1) }]
        } else {
            found
        }
    }
}

/// The sum of counts.
pub open spec fn sum_of(counts: Seq<nat>) -> nat
    decreases counts.len(),
{
    if counts.len() == 0 {
        0
    } else {
        sum_of(counts.drop_last()) + counts.last()
    }
}

/// Raising one count by one raises the sum by one.
proof fn lemma_sum_raised(counts: Seq<nat>, k: int)
    requires
        0 <= k < counts.len(),
    ensures
        sum_of(counts.update(k, counts[k] + 1)) == sum_of(counts) + 1,
    decreases counts.len(),
{
    let raised = counts.update(k, counts[k] + 1);
    if k == counts.len() - 1 {
        assert(raised.drop_last() =~= counts.drop_last());
    } else {
        assert(raised.drop_last() =~= counts.drop_last().update(k, counts[k] + 1));
        lemma_sum_raised(counts.drop_last(), k);
    }
}

/// Counts that are all zero have the sum zero.
proof fn lemma_sum_zero(counts: Seq<nat>)
    requires
        forall|i: int| 0 <= i < counts.len() ==> counts[i] == 0,
    ensures
        sum_of(counts) == 0,
    decreases counts.len(),
{
    if counts.len() > 0 {
        lemma_sum_zero(counts.drop_last());
    }
}

/// Every size falls into exactly one bin: the counts of a histogram add up to the
/// number of sizes.
pub proof fn law_histogram_is_complete(sizes: Seq<u16>, low: u16, width: Single, num_bins: nat)
    requires
        num_bins > 0,
    ensures
        sum_of(histogram(sizes, low, width, num_bins)) == sizes.len(),
    decreases sizes.len(),
{
    let counts = histogram(sizes, low, width, num_bins);
    if sizes.len() == 0 {
        lemma_sum_zero(counts);
    } else {
        let before = histogram(sizes.drop_last(), low, width, num_bins);
        let bin = bin_of(sizes.last(), low, width, num_bins) as int;
        law_histogram_is_complete(sizes.drop_last(), low, width, num_bins);
        law_whole_is_capped(
            over(minus(of_int(sizes.last() as nat), of_int(low as nat)), width),
            (num_bins - 1) as nat,
        );
        assert(counts =~= before.update(bin, before[bin] + 1));
        lemma_sum_raised(before, bin);
    }
}

/// The smallest and the largest of a sequence of sizes.
fn extremes(sizes: &[u16]) -> (r: (u16, u16))
    requires
        sizes@.len() > 0,
    ensures
        r.0 == smallest(sizes@),
        r.1 == largest(sizes@),
        forall|i: int| 0 <= i < sizes@.len() ==> r.0 <= #[trigger] sizes@[i] <= r.1,
{
    let mut low: u16 = sizes[0];
    let mut high: u16 = sizes[0];
    let mut i: usize = 1;
    while i < sizes.len()
        invariant
            1 <= i <= sizes@.len(),
            low == smallest(sizes@.take(i as int)),
            high == largest(sizes@.take(i as int)),
            forall|k: int| 0 <= k < i ==> low <= #[trigger] sizes@[k] <= high,
        decreases sizes@.len() - i,
    {
        proof {
            let next = sizes@.take(i + 1);
            assert(next.drop_last() =~= sizes@.take(i as int));
            assert(next.last() == sizes@[i as int]);
        }
        if sizes[i] < low {
            low = sizes[i];
        }
        if sizes[i] > high {
            high = sizes[i];
        }
        i = i + 1;
    }
    assert(sizes@.take(i as int) =~= sizes@);
    (low, high)
}

/// The counts of a histogram as numbers.
pub open spec fn count_models(counts: Seq<usize>) -> Seq<nat> {
    counts.map_values(|c: usize| c as nat)
}

/// The histogram of sizes.
fn count_bins(sizes: &[u16], low: u16, width: Single, num_bins: usize) -> (r: Vec<usize>)
    requires
        num_bins > 0,
    ensures
        count_models(r@) == histogram(sizes@, low, width, num_bins as nat),
{
    let mut counts: Vec<usize> = vec![0; num_bins];
    let mut i: usize = 0;
    assert(sizes@.take(0) =~= Seq::<u16>::empty());
    assert(count_models(counts@) =~= histogram(sizes@.take(0), low, width, num_bins as nat));
    while i < sizes.len()
        invariant
            i <= sizes@.len(),
            num_bins > 0,
            counts@.len() == num_bins,
            count_models(counts@) == histogram(
                sizes@.take(i as int),
                low,
                width,
                num_bins as nat,
            ),
            forall|k: int| 0 <= k < num_bins ==> #[trigger] counts@[k] <= i,
        decreases sizes@.len() - i,
    {
        let offset = Single::from_int(sizes[i] as u64).minus(Single::from_int(low as u64));
        let bin: usize = offset.over(width).whole((num_bins - 1) as u64) as usize;
        assert(bin == bin_of(sizes@[i as int], low, width, num_bins as nat));
        let ghost before = count_models(counts@);
        let ghost next = sizes@.take(i + 1);
        proof {
            assert(next.drop_last() =~= sizes@.take(i as int));
            assert(next.last() == sizes@[i as int]);
            assert(counts@[bin as int] <= i);
        }
        let raised: usize = counts[bin] + 1;
        counts.set(bin, raised);
        proof {
            assert forall|k: int| 0 <= k < num_bins implies #[trigger] count_models(counts@)[k]
                == histogram(next, low, width, num_bins as nat)[k] by {
                assert(before[k] == histogram(
                    sizes@.take(i as int),
                    low,
                    width,
                    num_bins as nat,
                )[k]);
            }
            assert(count_models(counts@) =~= histogram(next, low, width, num_bins as nat));
        }
        i = i + 1;
    }
    assert(sizes@.take(i as int) =~= sizes@);
    counts
}

/// The centre of a bin.
fn center_of(low: u16, width: Single, bin: usize) -> (r: Single)
    ensures
        r == bin_center(low, width, bin as nat),
{
    let offset = Single::from_int(bin as u64).plus(Single::fraction(1, 2)).times(width);
    Single::from_int(low as u64).plus(offset)
}

/// The standard deviation of a histogram around `center`.
fn spread_around(
    counts: &Vec<usize>,
    low: u16,
    width: Single,
    center: Single,
    len: usize,
) -> (r: Single)
    ensures
        r == root(over(spread(count_models(counts@), low, width, center), of_int(len as nat))),
{
    let ghost models = count_models(counts@);
    let mut sum = Single { bits: 0 };
    let mut j: usize = 0;
    assert(models.take(0) =~= Seq::<nat>::empty());
    while j < counts.len()
        invariant
            j <= counts@.len(),
            models == count_models(counts@),
            sum == spread(models.take(j as int), low, width, center),
        decreases counts@.len() - j,
    {
        proof {
            let next = models.take(j + 1);
            assert(next.drop_last() =~= models.take(j as int));
            assert(next.last() == counts@[j as int]);
        }
        let count: usize = counts[j];
        if count > 0 {
            let distance = center_of(low, width, j).minus(center);
            sum = sum.plus(Single::from_int(count as u64).times(distance.square()));
        }
        j = j + 1;
    }
    assert(models.take(j as int) =~= models);
    sum.over(Single::from_int(len as u64)).root()
}

/// The modes of packet sizes, found as the peaks of a histogram with `num_bins`
/// bins.
pub fn find_modes_histogram(sizes: &[u16], num_bins: usize) -> (r: Vec<Mode>)
    requires
        sizes@.len() > 0 ==> num_bins >= 1,
    ensures
        r@ == size_modes(sizes@, num_bins as nat),
        r@.len() >= 1,
{
    let unit = Single::from_int(1);
    if sizes.len() == 0 {
        let modes = vec![
            Mode { center: Single::from_int(64), std_dev: Single::from_int(32), weight: unit },
        ];
        assert(modes@ =~= size_modes(sizes@, num_bins as nat));
        return modes;
    }
    let (low, high) = extremes(sizes);
    proof {
        assert(low <= sizes@[0] <= high);
    }
    let range = Single::from_int((high - low) as u64);
    let width = range.over(Single::from_int(num_bins as u64)).larger(unit);
    let counts = count_bins(sizes, low, width, num_bins);
    let ghost models = count_models(counts@);
    assert(models.len() == num_bins);
    let twentieth: u64 = Single::from_int(sizes.len() as u64).whole(u64::MAX) / 20;
    let mut modes: Vec<Mode> = Vec::new();
    let mut i: usize = 0;
    while i < num_bins
        invariant
            i <= num_bins,
            num_bins == counts@.len(),
            models == count_models(counts@),
            twentieth == rounded_len(sizes@.len()) / 20,
            modes@ == peaks_below(models, low, width, sizes@.len(), i as nat),
        decreases num_bins - i,
    {
        if 1 <= i && i < num_bins - 1 && counts[i] > counts[i - 1] && counts[i] > counts[i + 1]
            && counts[i] as u64 > twentieth {
            assert(is_peak(models, sizes@.len(), i as int));
            let center = center_of(low, width, i);
            let std_dev = spread_around(&counts, low, width, center, sizes.len());
            let weight = share_of(counts[i] as u64, sizes.len() as u64);
            modes.push(Mode { center, std_dev, weight });
        } else {
            assert(!is_peak(models, sizes@.len(), i as int));
        }
        i = i + 1;
    }
    if modes.len() == 0 {
        modes.push(Mode { center: mean_u16(sizes), std_dev: std_dev_u16(sizes), weight: unit });
        assert(modes@ =~= size_modes(sizes@, num_bins as nat));
    }
    modes
}

} // verus!
