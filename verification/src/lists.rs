//! Two lists of numbers: how far apart they lie, and how alike they are.

use std::collections::HashMap;
use vstd::prelude::*;

verus! {

/// The distance between `a` and `b`.
pub open spec fn distance(a: int, b: int) -> int {
    if a >= b {
        a - b
    } else {
        b - a
    }
}

/// The sum of the distances between the first `n` numbers of `first` and of
/// `second`, each to the one at the same place.
pub open spec fn distance_sum(first: Seq<i32>, second: Seq<i32>, n: int) -> int
    decreases n,
{
    if n <= 0 {
        0
    } else {
        distance_sum(first, second, n - 1) + distance(first[n - 1] as int, second[n - 1] as int)
    }
}

/// The common length of two lists: that of the shorter one.
pub open spec fn paired_len(first: Seq<i32>, second: Seq<i32>) -> int {
    if first.len() <= second.len() {
        first.len() as int
    } else {
        second.len() as int
    }
}

/// The sum over fewer places is no larger.
pub proof fn lemma_distance_sum_monotone(first: Seq<i32>, second: Seq<i32>, a: int, b: int)
    requires
        a <= b,
    ensures
        0 <= distance_sum(first, second, a) <= distance_sum(first, second, b),
    decreases b,
{
    if b <= 0 {
    } else if a == b {
        lemma_distance_sum_monotone(first, second, a - 1, b - 1);
    } else {
        lemma_distance_sum_monotone(first, second, a, b - 1);
    }
}

/// The sum of the distances between the numbers of two lists, place by place,
/// as far as the shorter list goes.
pub fn calculate_sum_of_differences(array1: &[i32], array2: &[i32]) -> (sum: i32)
    requires
        distance_sum(array1@, array2@, paired_len(array1@, array2@)) <= i32::MAX,
    ensures
        sum == distance_sum(array1@, array2@, paired_len(array1@, array2@)),
{
    checked_sum_of_differences(array1, array2).unwrap()
}

/// How often `x` stands among the first `n` numbers of `list`.
pub open spec fn occurrences(list: Seq<i32>, x: i32, n: int) -> nat
    decreases n,
{
    if n <= 0 {
        0
    } else {
        occurrences(list, x, n - 1) + (if list[n - 1] == x {
            1nat
        } else {
            0nat
        })
    }
}

/// The sum, over the first `n` numbers of `first`, of the number times how
/// often it stands in `second`.
pub open spec fn weighted_sum(first: Seq<i32>, second: Seq<i32>, n: int) -> int
    decreases n,
{
    if n <= 0 {
        0
    } else {
        weighted_sum(first, second, n - 1) + first[n - 1] * occurrences(
            second,
            first[n - 1],
            second.len() as int,
        )
    }
}

/// Every sum over the first numbers of `first` fits in an `i32`.
pub open spec fn weighted_sums_fit(first: Seq<i32>, second: Seq<i32>) -> bool {
    forall|n: int| 0 <= n <= first.len() ==> i32::MIN <= #[trigger] weighted_sum(first, second, n) <= i32::MAX
}

/// A number stands in a list at most as often as the list is long.
pub proof fn lemma_occurrences_bound(list: Seq<i32>, x: i32, n: int)
    requires
        0 <= n,
    ensures
        occurrences(list, x, n) <= n,
    decreases n,
{
    if n > 0 {
        lemma_occurrences_bound(list, x, n - 1);
    }
}

/// How often each number stands in `list`.
fn count_all(list: &[i32]) -> (counts: HashMap<i32, usize>)
    ensures
        forall|x: i32| #[trigger]
            counts@.contains_key(x) <==> occurrences(list@, x, list@.len() as int) > 0,
        forall|x: i32| #[trigger]
            counts@.contains_key(x) ==> counts@[x] == occurrences(list@, x, list@.len() as int),
{
    broadcast use vstd::std_specs::hash::group_hash_axioms;

    let mut counts: HashMap<i32, usize> = HashMap::new();
    let mut i: usize = 0;
    while i < list.len()
        invariant
            i <= list.len(),
            forall|x: i32| #[trigger] counts@.contains_key(x) <==> occurrences(list@, x, i as int) > 0,
            forall|x: i32| #[trigger] counts@.contains_key(x) ==> counts@[x] == occurrences(list@, x, i as int),
        decreases list.len() - i,
    {
        let number = list[i];
        proof {
            lemma_occurrences_bound(list@, number, i as int);
        }
        let seen: usize = match counts.get(&number) {
            Some(count) => *count,
            None => 0,
        };
        counts.insert(number, seen + 1);
        i += 1;
    }
    counts
}

/// The sum, over the numbers of the first list, of the number times how often
/// it stands in the second list.
pub fn calculate_weighted_sum(array1: &[i32], array2: &[i32]) -> (sum: i32)
    requires
        weighted_sums_fit(array1@, array2@),
    ensures
        sum == weighted_sum(array1@, array2@, array1@.len() as int),
{
    checked_weighted_sum(array1, array2).unwrap()
}

/// The sum of the distances as `calculate_sum_of_differences` gives it, or
/// `None` where it does not fit in an `i32`.
pub fn checked_sum_of_differences(array1: &[i32], array2: &[i32]) -> (sum: Option<i32>)
    ensures
        distance_sum(array1@, array2@, paired_len(array1@, array2@)) <= i32::MAX ==> sum is Some,
        sum matches Some(v) ==> v == distance_sum(array1@, array2@, paired_len(array1@, array2@)),
{
    let n = if array1.len() <= array2.len() {
        array1.len()
    } else {
        array2.len()
    };
    let mut sum: i64 = 0;
    let mut i: usize = 0;
    while i < n
        invariant
            i <= n,
            n == paired_len(array1@, array2@),
            sum == distance_sum(array1@, array2@, i as int),
            0 <= sum <= i32::MAX,
        decreases n - i,
    {
        let a = array1[i] as i64;
        let b = array2[i] as i64;
        let d = if a >= b {
            a - b
        } else {
            b - a
        };
        if sum + d > i32::MAX as i64 {
            proof {
                lemma_distance_sum_monotone(array1@, array2@, i as int + 1, n as int);
            }
            return None;
        }
        sum = sum + d;
        i += 1;
    }
    Some(sum as i32)
}

/// The weighted sum as `calculate_weighted_sum` gives it, or `None` where a
/// sum on the way does not fit in an `i32`.
pub fn checked_weighted_sum(array1: &[i32], array2: &[i32]) -> (sum: Option<i32>)
    ensures
        weighted_sums_fit(array1@, array2@) ==> sum is Some,
        sum matches Some(v) ==> weighted_sums_fit(array1@, array2@) && v == weighted_sum(
            array1@,
            array2@,
            array1@.len() as int,
        ),
{
    broadcast use vstd::std_specs::hash::group_hash_axioms;

    let lookup = count_all(array2);
    let mut sum: i32 = 0;
    let mut i: usize = 0;
    while i < array1.len()
        invariant
            i <= array1.len(),
            forall|x: i32| #[trigger]
                lookup@.contains_key(x) <==> occurrences(array2@, x, array2@.len() as int) > 0,
            forall|x: i32| #[trigger]
                lookup@.contains_key(x) ==> lookup@[x] == occurrences(array2@, x, array2@.len() as int),
            sum == weighted_sum(array1@, array2@, i as int),
            forall|n: int|
                0 <= n <= i ==> i32::MIN <= #[trigger] weighted_sum(array1@, array2@, n) <= i32::MAX,
        decreases array1.len() - i,
    {
        let number = array1[i];
        let ghost term = number * occurrences(array2@, number, array2@.len() as int);
        proof {
            assert(weighted_sum(array1@, array2@, i as int + 1) == sum + term);
        }
        let count: usize = match lookup.get(&number) {
            Some(count) => *count,
            None => 0,
        };
        proof {
            let c = count as int;
            assert(-0x8000_0000 * 0x1_0000_0000_0000_0000 <= number * c <= 0x8000_0000
                * 0x1_0000_0000_0000_0000) by (nonlinear_arith)
                requires
                    -0x8000_0000 <= number <= 0x8000_0000,
                    0 <= c <= 0x1_0000_0000_0000_0000,
            ;
            assert(term == number * c);
        }
        let product: i128 = number as i128 * count as i128;
        let next: i128 = sum as i128 + product;
        if next < i32::MIN as i128 || next > i32::MAX as i128 {
            proof {
                assert(!(i32::MIN <= weighted_sum(array1@, array2@, i as int + 1) <= i32::MAX));
            }
            return None;
        }
        sum = next as i32;
        i += 1;
    }
    Some(sum)
}

} // verus!
