//! Reports: lists of levels that are safe where they rise or fall all the
//! way in steps of one to three.

use vstd::prelude::*;

verus! {

/// The change from level `i` to the next.
pub open spec fn step(levels: Seq<i32>, i: int) -> int {
    levels[i + 1] - levels[i]
}

/// Each level is higher than the one before by one, two or three.
pub open spec fn rises_gently(levels: Seq<i32>) -> bool {
    forall|i: int| 0 <= i < levels.len() - 1 ==> 1 <= #[trigger] step(levels, i) <= 3
}

/// Each level is lower than the one before by one, two or three.
pub open spec fn falls_gently(levels: Seq<i32>) -> bool {
    forall|i: int| 0 <= i < levels.len() - 1 ==> -3 <= #[trigger] step(levels, i) <= -1
}

/// A report is safe where its levels rise gently or fall gently.
pub open spec fn is_safe(levels: Seq<i32>) -> bool {
    rises_gently(levels) || falls_gently(levels)
}

/// A report is safe with some one level left out.
pub open spec fn is_safe_without_one(levels: Seq<i32>) -> bool {
    exists|i: int| 0 <= i < levels.len() && is_safe(#[trigger] levels.remove(i))
}

/// Whether the levels rise gently all the way, or fall gently all the way.
pub fn is_safe_report(numbers: &[i32]) -> (safe: bool)
    ensures
        safe == is_safe(numbers@),
{
    let mut is_increasing = false;
    let mut is_decreasing = false;
    let mut i: usize = 0;
    if numbers.len() < 2 {
        return true;
    }
    while i < numbers.len() - 1
        invariant
            numbers.len() >= 2,
            i <= numbers.len() - 1,
            !(is_increasing && is_decreasing),
            is_increasing ==> i > 0 && step(numbers@, 0) > 0,
            is_decreasing ==> i > 0 && step(numbers@, 0) < 0,
            i > 0 ==> is_increasing || is_decreasing,
            is_increasing ==> forall|k: int| 0 <= k < i ==> 1 <= #[trigger] step(numbers@, k) <= 3,
            is_decreasing ==> forall|k: int| 0 <= k < i ==> -3 <= #[trigger] step(numbers@, k) <= -1,
        decreases numbers.len() - 1 - i,
    {
        let diff: i64 = numbers[i + 1] as i64 - numbers[i] as i64;
        assert(diff == step(numbers@, i as int));
        if diff > 3 || diff < -3 || diff == 0 {
            return false;
        }
        if diff > 0 {
            if is_decreasing {
                assert(step(numbers@, 0) < 0);
                return false;
            }
            is_increasing = true;
        } else {
            if is_increasing {
                assert(step(numbers@, 0) > 0);
                return false;
            }
            is_decreasing = true;
        }
        i += 1;
    }
    true
}

/// The levels of `numbers` but the one at `skip`.
fn without(numbers: &[i32], skip: usize) -> (rest: Vec<i32>)
    requires
        skip < numbers.len(),
    ensures
        rest@ == numbers@.remove(skip as int),
{
    let mut rest: Vec<i32> = Vec::new();
    let mut i: usize = 0;
    while i < numbers.len()
        invariant
            i <= numbers.len(),
            skip < numbers.len(),
            rest@ == (if i <= skip {
                numbers@.take(i as int)
            } else {
                numbers@.take(skip as int) + numbers@.subrange(skip as int + 1, i as int)
            }),
        decreases numbers.len() - i,
    {
        if i != skip {
            rest.push(numbers[i]);
        }
        i += 1;
        proof {
            if i <= skip {
                assert(rest@ =~= numbers@.take(i as int));
            } else {
                assert(rest@ =~= numbers@.take(skip as int) + numbers@.subrange(
                    skip as int + 1,
                    i as int,
                ));
            }
        }
    }
    assert(rest@ =~= numbers@.remove(skip as int));
    rest
}

/// Whether the report is safe with some one level left out.
pub fn is_safe_by_removing_one_element(numbers: &[i32]) -> (safe: bool)
    ensures
        safe == is_safe_without_one(numbers@),
{
    let mut i: usize = 0;
    while i < numbers.len()
        invariant
            i <= numbers.len(),
            forall|k: int| 0 <= k < i ==> !is_safe(#[trigger] numbers@.remove(k)),
        decreases numbers.len() - i,
    {
        let numbers_copy = without(numbers, i);
        if is_safe_report(numbers_copy.as_slice()) {
            return true;
        }
        i += 1;
    }
    false
}

} // verus!
