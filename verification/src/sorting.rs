//! Samples of double-precision numbers in ascending order.
use crate::float_bits::{double_key, order_key};
use vstd::prelude::*;

verus! {

/// Keys in ascending order.
pub open spec fn ascending(keys: Seq<i64>) -> bool {
    forall|i: int, j: int| 0 <= i <= j < keys.len() ==> keys[i] <= keys[j]
}

/// The keys of a sample of double-precision patterns.
pub open spec fn keys_of(sample: Seq<u64>) -> Seq<i64> {
    sample.map_values(|bits: u64| double_key(bits) as i64)
}

/// Calls the standard library's `sort` on a slice of integers: the same elements,
/// in ascending order.
#[verifier::external_body]
fn sort(keys: &mut Vec<i64>)
    ensures
        ascending(final(keys)@),
        final(keys)@.to_multiset() == old(keys)@.to_multiset(),
{
    keys.sort()
}

/// The keys of a sample in ascending order.
pub fn sorted_keys(sample: &Vec<u64>) -> (r: Vec<i64>)
    ensures
        ascending(r@),
        r@.to_multiset() == keys_of(sample@).to_multiset(),
        r@.len() == sample@.len(),
{
    let mut keys: Vec<i64> = Vec::new();
    while keys.len() < sample.len()
        invariant
            keys@.len() <= sample@.len(),
            keys@ == keys_of(sample@).take(keys@.len() as int),
        decreases sample@.len() - keys@.len(),
    {
        let i: usize = keys.len();
        let ghost before = keys@;
        let key: i64 = order_key(sample[i]);
        keys.push(key);
        assert(keys@ =~= keys_of(sample@).take(i + 1));
    }
    assert(keys@ =~= keys_of(sample@));
    sort(&mut keys);
    proof {
        keys@.to_multiset_ensures();
        keys_of(sample@).to_multiset_ensures();
    }
    keys
}

/// The number of keys that are at most `k`.
pub open spec fn keys_up_to(keys: Seq<i64>, k: i64) -> nat
    decreases keys.len(),
{
    if keys.len() == 0 {
        0
    } else {
        keys_up_to(keys.drop_last(), k) + if keys.last() <= k {
            1nat
        } else {
            0
        }
    }
}

/// What a removed key counted.
proof fn lemma_count_removed(keys: Seq<i64>, j: int, k: i64)
    requires
        0 <= j < keys.len(),
    ensures
        keys_up_to(keys, k) == keys_up_to(keys.remove(j), k) + if keys[j] <= k {
            1nat
        } else {
            0
        },
    decreases keys.len(),
{
    let rest = keys.remove(j);
    if j == keys.len() - 1 {
        assert(rest =~= keys.drop_last());
    } else {
        assert(rest.drop_last() =~= keys.drop_last().remove(j));
        assert(rest.last() == keys.last());
        lemma_count_removed(keys.drop_last(), j, k);
    }
}

/// A count does not depend on the order of the keys.
pub proof fn lemma_count_unordered(a: Seq<i64>, b: Seq<i64>, k: i64)
    requires
        a.to_multiset() == b.to_multiset(),
    ensures
        keys_up_to(a, k) == keys_up_to(b, k),
    decreases a.len(),
{
    a.to_multiset_ensures();
    b.to_multiset_ensures();
    if a.len() > 0 {
        let last = a.len() - 1;
        let x = a[last];
        assert(a.contains(x));
        assert(a.to_multiset().count(x) > 0);
        assert(b.contains(x));
        let j = choose|j: int| 0 <= j < b.len() && b[j] == x;
        lemma_count_removed(a, last, k);
        lemma_count_removed(b, j, k);
        assert(a.remove(last).to_multiset() == b.remove(j).to_multiset());
        lemma_count_unordered(a.remove(last), b.remove(j), k);
    }
}

/// In ascending keys, the keys up to `k` are the first ones.
pub proof fn lemma_count_sorted(keys: Seq<i64>, k: i64, n: nat)
    requires
        n <= keys.len(),
        forall|i: int| 0 <= i < n ==> #[trigger] keys[i] <= k,
        forall|i: int| n <= i < keys.len() ==> #[trigger] keys[i] > k,
    ensures
        keys_up_to(keys, k) == n,
    decreases keys.len(),
{
    if keys.len() > 0 {
        let front = keys.drop_last();
        if n == keys.len() {
            lemma_count_sorted(front, k, (n - 1) as nat);
        } else {
            lemma_count_sorted(front, k, n);
        }
    }
}

} // verus!
