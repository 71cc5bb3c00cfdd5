//! Stones with numbers that change with each blink: a zero becomes a one, a
//! number with an even count of digits splits in two, any other is
//! multiplied by 2024. Only how many stones carry each number is kept.

use crate::calibration::{digits_of, ten_to};
use std::collections::HashMap;
use vstd::prelude::*;
use vstd::std_specs::iter::IteratorSpec;

verus! {

/// The stones that one stone becomes with a blink.
pub open spec fn blink_one(stone: nat) -> Seq<nat> {
    if stone == 0 {
        seq![1nat]
    } else if digits_of(stone as int) % 2 == 0 {
        seq![
            (stone as int / ten_to(digits_of(stone as int) / 2)) as nat,
            (stone as int % ten_to(digits_of(stone as int) / 2)) as nat,
        ]
    } else {
        seq![stone * 2024]
    }
}

/// The stones after one blink: what each stone becomes, in the order of the stones.
pub open spec fn blink(stones: Seq<nat>) -> Seq<nat>
    decreases stones.len(),
{
    if stones.len() == 0 {
        Seq::empty()
    } else {
        blink(stones.drop_last()) + blink_one(stones.last())
    }
}

/// The stones after `k` blinks.
pub open spec fn blink_times(stones: Seq<nat>, k: nat) -> Seq<nat>
    decreases k,
{
    if k == 0 {
        stones
    } else {
        blink(blink_times(stones, (k - 1) as nat))
    }
}

/// How many of the stones carry the number `t`.
pub open spec fn count_of(stones: Seq<nat>, t: nat) -> nat
    decreases stones.len(),
{
    if stones.len() == 0 {
        0
    } else {
        count_of(stones.drop_last(), t) + (if stones.last() == t {
            1nat
        } else {
            0nat
        })
    }
}

/// What the map says of the number `t`: how many stones carry it.
pub open spec fn entry(map: Map<usize, usize>, t: nat) -> nat {
    if t <= usize::MAX && map.contains_key(t as usize) {
        map[t as usize] as nat
    } else {
        0
    }
}

/// The map counts the stones: for each number it says how many carry it.
pub open spec fn counts(map: Map<usize, usize>, stones: Seq<nat>) -> bool {
    forall|t: nat| #[trigger] entry(map, t) == count_of(stones, t)
}

/// How many stones come, with a blink, from those of the stones whose
/// number is in `keys`, and carry the number `t`.
pub open spec fn partial_count(stones: Seq<nat>, keys: Set<nat>, t: nat) -> nat
    decreases stones.len(),
{
    if stones.len() == 0 {
        0
    } else {
        partial_count(stones.drop_last(), keys, t) + (if keys.contains(stones.last()) {
            count_of(blink_one(stones.last()), t)
        } else {
            0
        })
    }
}

/// A stone is counted at most as often as there are stones.
pub proof fn lemma_count_bound(stones: Seq<nat>, t: nat)
    ensures
        count_of(stones, t) <= stones.len(),
    decreases stones.len(),
{
    if stones.len() > 0 {
        lemma_count_bound(stones.drop_last(), t);
    }
}

/// A number that is counted is the number of a stone.
pub proof fn lemma_counted_is_there(stones: Seq<nat>, t: nat)
    requires
        count_of(stones, t) > 0,
    ensures
        stones.contains(t),
    decreases stones.len(),
{
    if stones.len() > 0 {
        if stones.last() == t {
            assert(stones[stones.len() - 1] == t);
        } else {
            lemma_counted_is_there(stones.drop_last(), t);
            let i = choose|i: int| 0 <= i < stones.drop_last().len() && stones.drop_last()[i] == t;
            assert(stones[i] == t);
        }
    }
}

/// Counting over two lists, one behind the other, adds up.
pub proof fn lemma_count_concat(a: Seq<nat>, b: Seq<nat>, t: nat)
    ensures
        count_of(a + b, t) == count_of(a, t) + count_of(b, t),
    decreases b.len(),
{
    if b.len() == 0 {
        assert(a + b =~= a);
    } else {
        assert((a + b).drop_last() =~= a + b.drop_last());
        lemma_count_concat(a, b.drop_last(), t);
    }
}

/// One more number among the keys adds what its stones become.
pub proof fn lemma_partial_insert(stones: Seq<nat>, keys: Set<nat>, s: nat, t: nat)
    requires
        !keys.contains(s),
    ensures
        partial_count(stones, keys.insert(s), t) == partial_count(stones, keys, t) + count_of(stones, s)
            * count_of(blink_one(s), t),
    decreases stones.len(),
{
    if stones.len() == 0 {
        assert(0 * count_of(blink_one(s), t) == 0) by (nonlinear_arith);
    } else {
        lemma_partial_insert(stones.drop_last(), keys, s, t);
        let c = count_of(stones.drop_last(), s);
        let b = count_of(blink_one(s), t);
        assert((c + 1) * b == c * b + b) by (nonlinear_arith);
    }
}

/// Where every number of a stone is among the keys, all stones are counted.
pub proof fn lemma_partial_all(stones: Seq<nat>, keys: Set<nat>, t: nat)
    requires
        forall|i: int| 0 <= i < stones.len() ==> keys.contains(#[trigger] stones[i]),
    ensures
        partial_count(stones, keys, t) == count_of(blink(stones), t),
    decreases stones.len(),
{
    if stones.len() > 0 {
        assert forall|i: int| 0 <= i < stones.drop_last().len() implies keys.contains(
            #[trigger] stones.drop_last()[i],
        ) by {
            assert(stones.drop_last()[i] == stones[i]);
        }
        lemma_partial_all(stones.drop_last(), keys, t);
        lemma_count_concat(blink(stones.drop_last()), blink_one(stones.last()), t);
        assert(keys.contains(stones[stones.len() - 1]));
    }
}

/// A blink makes of the stones at least as many and at most twice as many.
pub proof fn lemma_blink_len(stones: Seq<nat>)
    ensures
        stones.len() <= blink(stones).len() <= 2 * stones.len(),
    decreases stones.len(),
{
    if stones.len() > 0 {
        lemma_blink_len(stones.drop_last());
    }
}

/// What a stone becomes is among what the stones become.
pub proof fn lemma_blink_contains(stones: Seq<nat>, i: int, j: int)
    requires
        0 <= i < stones.len(),
        0 <= j < blink_one(stones[i]).len(),
    ensures
        blink(stones).contains(blink_one(stones[i])[j]),
    decreases stones.len(),
{
    let before = blink(stones.drop_last());
    let here = blink_one(stones.last());
    if i == stones.len() - 1 {
        assert((before + here)[before.len() + j] == here[j]);
    } else {
        lemma_blink_contains(stones.drop_last(), i, j);
        let k = choose|k: int| 0 <= k < before.len() && before[k] == blink_one(stones[i])[j];
        assert((before + here)[k] == before[k]);
    }
}

/// Every number of the stones fits in a `usize`, and so does their count.
pub open spec fn stones_fit(stones: Seq<nat>) -> bool {
    &&& stones.len() <= usize::MAX
    &&& forall|i: int| 0 <= i < stones.len() ==> #[trigger] stones[i] <= usize::MAX
}

/// The stones fit after each number of blinks up to `k`.
pub open spec fn blinks_fit(stones: Seq<nat>, k: nat) -> bool {
    forall|j: nat| j <= k ==> stones_fit(#[trigger] blink_times(stones, j))
}

/// The numbers as they are in the model.
pub open spec fn as_stones(data: Seq<usize>) -> Seq<nat> {
    Seq::new(data.len(), |i: int| data[i] as nat)
}

/// The number of stones that carry `key`, as the map has it.
fn lookup(map: &HashMap<usize, usize>, key: usize) -> (count: usize)
    ensures
        count == entry(map@, key as nat),
{
    broadcast use vstd::std_specs::hash::group_hash_axioms;

    match map.get(&key) {
        Some(count) => *count,
        None => 0,
    }
}

/// Adds `value` to what the map has for `key`.
pub fn insert_key_or_increment_value(updated_stone_data: &mut HashMap<usize, usize>, key: usize, value: usize)
    requires
        entry(old(updated_stone_data)@, key as nat) + value <= usize::MAX,
    ensures
        forall|t: nat| #[trigger]
            entry(final(updated_stone_data)@, t) == entry(old(updated_stone_data)@, t) + (if t == key {
                value as nat
            } else {
                0nat
            }),
        final(updated_stone_data)@ == old(updated_stone_data)@.insert(
            key,
            (entry(old(updated_stone_data)@, key as nat) + value) as usize,
        ),
{
    broadcast use vstd::std_specs::hash::group_hash_axioms;

    let before = lookup(updated_stone_data, key);
    updated_stone_data.insert(key, before + value);
}

/// How many stones carry each number.
pub fn create_stones_map(stone_data: Vec<usize>) -> (stones_map: HashMap<usize, usize>)
    ensures
        counts(stones_map@, as_stones(stone_data@)),
{
    broadcast use vstd::std_specs::hash::group_hash_axioms;

    let mut stones_map: HashMap<usize, usize> = HashMap::new();
    let ghost stones = as_stones(stone_data@);
    let mut i: usize = 0;
    while i < stone_data.len()
        invariant
            i <= stone_data.len(),
            stones == as_stones(stone_data@),
            counts(stones_map@, stones.take(i as int)),
        decreases stone_data.len() - i,
    {
        let stone_number = stone_data[i];
        let ghost before = stones_map@;
        proof {
            lemma_count_bound(stones.take(i as int), stone_number as nat);
            assert(entry(before, stone_number as nat) == count_of(stones.take(i as int), stone_number as nat));
        }
        insert_key_or_increment_value(&mut stones_map, stone_number, 1);
        proof {
            let now = stones.take(i as int + 1);
            assert(now.drop_last() =~= stones.take(i as int));
            assert(now.last() == stone_number as nat);
            assert forall|t: nat| #[trigger] entry(stones_map@, t) == count_of(now, t) by {
                assert(entry(before, t) == count_of(stones.take(i as int), t));
            }
        }
        i += 1;
    }
    assert(stones.take(stone_data.len() as int) =~= stones);
    stones_map
}

/// What is counted from the stones of some keys is no more than what is
/// counted from all stones.
pub proof fn lemma_partial_bound(stones: Seq<nat>, keys: Set<nat>, t: nat)
    ensures
        partial_count(stones, keys, t) <= count_of(blink(stones), t),
    decreases stones.len(),
{
    if stones.len() > 0 {
        lemma_partial_bound(stones.drop_last(), keys, t);
        lemma_count_concat(blink(stones.drop_last()), blink_one(stones.last()), t);
    }
}

/// Ten to a higher power is no smaller.
pub proof fn lemma_ten_to_monotone(a: nat, b: nat)
    requires
        a <= b,
    ensures
        1 <= ten_to(a) <= ten_to(b),
    decreases b,
{
    if b == 0 {
    } else if a == b {
        lemma_ten_to_monotone((a - 1) as nat, (b - 1) as nat);
    } else {
        lemma_ten_to_monotone(a, (b - 1) as nat);
    }
}

/// A number is at least ten to the power of one less than its count of digits.
pub proof fn lemma_digits_lower(n: int)
    requires
        n >= 1,
    ensures
        ten_to((digits_of(n) - 1) as nat) <= n,
    decreases n,
{
    if n >= 10 {
        lemma_digits_lower(n / 10);
    }
}

/// The count of decimal digits of `n`.
fn digit_count(n: usize) -> (d: usize)
    ensures
        d == digits_of(n as int),
        1 <= d <= 20,
{
    let mut d: usize = 1;
    let mut rest = n;
    while rest >= 10
        invariant
            1 <= d,
            digits_of(n as int) == d - 1 + digits_of(rest as int),
            rest * ten_to((d - 1) as nat) <= n,
            d <= 20,
        decreases rest,
    {
        proof {
            let r = rest as int;
            lemma_ten_to_monotone(0, (d - 1) as nat);
            assert(digits_of(r) == 1 + digits_of(r / 10));
            assert((r / 10) * ten_to(d as nat) <= r * ten_to((d - 1) as nat)) by (nonlinear_arith)
                requires
                    r >= 0,
                    ten_to(d as nat) == 10 * ten_to((d - 1) as nat),
                    ten_to((d - 1) as nat) >= 0,
            ;
            lemma_ten_to_monotone(0, (d - 1) as nat);
            if d == 20 {
                reveal_with_fuel(ten_to, 21);
                assert(ten_to(19) == 10_000_000_000_000_000_000);
                assert(rest * ten_to(19) >= 10 * ten_to(19)) by (nonlinear_arith)
                    requires
                        rest >= 10,
                        ten_to(19) >= 0,
                ;
            }
        }
        rest = rest / 10;
        d = d + 1;
    }
    d
}

/// Ten to the power of `k`, where that is at most `bound`.
fn power_of_ten(k: usize, Ghost(bound): Ghost<int>) -> (p: usize)
    requires
        ten_to(k as nat) <= bound <= usize::MAX,
    ensures
        p == ten_to(k as nat),
{
    let mut p: usize = 1;
    let mut i: usize = 0;
    while i < k
        invariant
            i <= k,
            p == ten_to(i as nat),
            ten_to(k as nat) <= bound <= usize::MAX,
        decreases k - i,
    {
        proof {
            lemma_ten_to_monotone((i + 1) as nat, k as nat);
        }
        p = p * 10;
        i += 1;
    }
    p
}

/// The keys among the first `n` entries of a walk through a map.
pub open spec fn keys_before(all: Seq<(&usize, &usize)>, n: int) -> Set<nat> {
    Set::new(|k: nat| exists|i: int| 0 <= i < n && *(#[trigger] all[i]).0 == k)
}

/// The map counts stones that fit after one more blink.
pub open spec fn blink_fits(map: Map<usize, usize>) -> bool {
    exists|stones: Seq<nat>| #[trigger] counts(map, stones) && stones_fit(blink(stones))
}

/// The stones after one blink, counted: for each number how many stones
/// carry it.
pub fn blink_map(stones_map: &HashMap<usize, usize>) -> (new_map: HashMap<usize, usize>)
    requires
        blink_fits(stones_map@),
    ensures
        forall|stones: Seq<nat>| #[trigger] counts(stones_map@, stones) ==> counts(new_map@, blink(stones)),
{
    try_blink_map(stones_map).unwrap()
}

/// The stones after one blink, counted, or `None` where a number or a count
/// does not fit in a `usize`.
pub fn try_blink_map(stones_map: &HashMap<usize, usize>) -> (r: Option<HashMap<usize, usize>>)
    ensures
        blink_fits(stones_map@) ==> r is Some,
        r matches Some(new_map) ==> forall|stones: Seq<nat>| #[trigger]
            counts(stones_map@, stones) ==> counts(new_map@, blink(stones)),
{
    broadcast use vstd::std_specs::hash::group_hash_axioms;

    let ghost fits = blink_fits(stones_map@);
    let ghost witness = choose|stones: Seq<nat>| #[trigger]
        counts(stones_map@, stones) && stones_fit(blink(stones));
    let mut new_map: HashMap<usize, usize> = HashMap::new();
    let ghost all = vstd::std_specs::hash::spec_hash_map_iter(stones_map).remaining();
    let ghost mut seen: int = 0;
    proof {
        assert forall|stones: Seq<nat>, t: nat| #[trigger] entry(new_map@, t) == #[trigger] partial_count(
            stones,
            keys_before(all, 0),
            t,
        ) by {
            lemma_partial_none(stones, keys_before(all, 0), t);
        }
    }
    for pair in it: stones_map.iter()
        invariant
            it.seq() == all,
            seen == it.index(),
            all.no_duplicates(),
            fits == blink_fits(stones_map@),
            fits ==> counts(stones_map@, witness) && stones_fit(blink(witness)),
            forall|i: int|
                0 <= i < all.len() ==> stones_map@.contains_key(*(#[trigger] all[i]).0) && stones_map@[*all[i].0]
                    == *all[i].1,
            forall|k: usize| #[trigger]
                stones_map@.contains_key(k) ==> exists|i: int| 0 <= i < all.len() && *(#[trigger] all[i]).0 == k,
            forall|stones: Seq<nat>, t: nat|
                counts(stones_map@, stones) ==> #[trigger] entry(new_map@, t) == #[trigger] partial_count(
                    stones,
                    keys_before(all, seen),
                    t,
                ),
    {
        let (key, value) = pair;
        let key: usize = *key;
        let value: usize = *value;
        let ghost at = it.index() as int;
        let ghost keys = keys_before(all, at);
        let ghost more = keys_before(all, at + 1);
        let ghost before = new_map@;
        proof {
            assert(pair == all[at]);
            assert(!keys.contains(key as nat)) by {
                if keys.contains(key as nat) {
                    let i = choose|i: int| 0 <= i < at && *(#[trigger] all[i]).0 == key as nat;
                    assert(stones_map@[*all[i].0] == *all[i].1);
                    assert(all[i] == all[at]);
                }
            }
            assert(more =~= keys.insert(key as nat)) by {
                assert forall|k: nat| more.contains(k) <==> keys.insert(key as nat).contains(k) by {
                    if more.contains(k) {
                        let i = choose|i: int| 0 <= i < at + 1 && *(#[trigger] all[i]).0 == k;
                        if i < at {
                            assert(keys.contains(k));
                        }
                    }
                    if keys.contains(k) {
                        let i = choose|i: int| 0 <= i < at && *(#[trigger] all[i]).0 == k;
                        assert(0 <= i < at + 1 && *all[i].0 == k);
                    }
                    if k == key as nat {
                        assert(*all[at].0 == k);
                    }
                }
            }
            assert(entry(stones_map@, key as nat) == value);
            seen = seen + 1;
        }
        if value > 0 {
            let ghost parts = blink_one(key as nat);
            proof {
                if fits {
                    assert(entry(stones_map@, key as nat) == count_of(witness, key as nat));
                    lemma_counted_is_there(witness, key as nat);
                    let place = choose|i: int| 0 <= i < witness.len() && witness[i] == key as nat;
                    assert forall|j: int| 0 <= j < parts.len() implies #[trigger] parts[j] <= usize::MAX by {
                        lemma_blink_contains(witness, place, j);
                        let x = choose|x: int| 0 <= x < blink(witness).len() && blink(witness)[x] == parts[j];
                    }
                    assert forall|t: nat| before_fits(before, key as nat, value as nat, t) by {
                        lemma_partial_insert(witness, keys, key as nat, t);
                        lemma_partial_bound(witness, more, t);
                        lemma_count_bound(blink(witness), t);
                        assert(entry(before, t) == partial_count(witness, keys, t));
                    }
                }
            }
            let digits = digit_count(key);
            if key == 0 {
                assert(parts =~= seq![1nat]);
                proof {
                    lemma_parts_one(1nat, 1nat);
                    assert(count_of(parts, 1nat) == 1);
                    assert(value * 1 == value) by (nonlinear_arith);
                    if fits {
                        assert(before_fits(before, key as nat, value as nat, 1nat));
                    }
                }
                if lookup(&new_map, 1) > usize::MAX - value {
                    return None;
                }
                insert_key_or_increment_value(&mut new_map, 1, value);
                proof {
                    assert forall|stones: Seq<nat>, t: nat| counts(stones_map@, stones) implies #[trigger] entry(
                        new_map@,
                        t,
                    ) == #[trigger] partial_count(stones, more, t) by {
                        lemma_partial_insert(stones, keys, key as nat, t);
                        assert(entry(before, t) == partial_count(stones, keys, t));
                        assert(entry(stones_map@, key as nat) == count_of(stones, key as nat));
                        lemma_parts_one(1nat, t);
                        let c = count_of(stones, key as nat);
                        assert(c * 1 == c && c * 0 == 0) by (nonlinear_arith);
                    }
                }
            } else if digits % 2 == 0 {
                let half = digits / 2;
                proof {
                    lemma_digits_lower(key as int);
                    lemma_ten_to_monotone(half as nat, (digits - 1) as nat);
                }
                let power = power_of_ten(half, Ghost(key as int));
                let left = key / power;
                let right = key % power;
                proof {
                    assert(parts =~= seq![left as nat, right as nat]);
                    lemma_parts_two(left as nat, right as nat, left as nat);
                    lemma_parts_two(left as nat, right as nat, right as nat);
                    let v = value as nat;
                    assert(v * 1 == v && v * 2 == v + v) by (nonlinear_arith);
                    if fits {
                        assert(before_fits(before, key as nat, value as nat, left as nat));
                        assert(before_fits(before, key as nat, value as nat, right as nat));
                    }
                }
                if lookup(&new_map, left) > usize::MAX - value {
                    return None;
                }
                insert_key_or_increment_value(&mut new_map, left, value);
                if lookup(&new_map, right) > usize::MAX - value {
                    return None;
                }
                insert_key_or_increment_value(&mut new_map, right, value);
                proof {
                    assert forall|stones: Seq<nat>, t: nat| counts(stones_map@, stones) implies #[trigger] entry(
                        new_map@,
                        t,
                    ) == #[trigger] partial_count(stones, more, t) by {
                        lemma_partial_insert(stones, keys, key as nat, t);
                        assert(entry(before, t) == partial_count(stones, keys, t));
                        assert(entry(stones_map@, key as nat) == count_of(stones, key as nat));
                        lemma_parts_two(left as nat, right as nat, t);
                        let c = count_of(stones, key as nat);
                        assert(c * 1 == c && c * 0 == 0 && c * 2 == c + c) by (nonlinear_arith);
                    }
                }
            } else {
                proof {
                    assert(parts =~= seq![(key * 2024) as nat]);
                    if fits {
                        assert(parts[0] <= usize::MAX);
                    }
                }
                let product = match key.checked_mul(2024) {
                    Some(product) => product,
                    None => {
                        return None;
                    },
                };
                proof {
                    lemma_parts_one((key * 2024) as nat, (key * 2024) as nat);
                    assert(value * 1 == value) by (nonlinear_arith);
                    if fits {
                        assert(before_fits(before, key as nat, value as nat, (key * 2024) as nat));
                    }
                }
                if lookup(&new_map, product) > usize::MAX - value {
                    return None;
                }
                insert_key_or_increment_value(&mut new_map, product, value);
                proof {
                    assert forall|stones: Seq<nat>, t: nat| counts(stones_map@, stones) implies #[trigger] entry(
                        new_map@,
                        t,
                    ) == #[trigger] partial_count(stones, more, t) by {
                        lemma_partial_insert(stones, keys, key as nat, t);
                        assert(entry(before, t) == partial_count(stones, keys, t));
                        assert(entry(stones_map@, key as nat) == count_of(stones, key as nat));
                        lemma_parts_one((key * 2024) as nat, t);
                        let c = count_of(stones, key as nat);
                        assert(c * 1 == c && c * 0 == 0) by (nonlinear_arith);
                    }
                }
            }
        } else {
            proof {
                assert forall|stones: Seq<nat>, t: nat| counts(stones_map@, stones) implies #[trigger] entry(
                    new_map@,
                    t,
                ) == #[trigger] partial_count(stones, more, t) by {
                    lemma_partial_insert(stones, keys, key as nat, t);
                    assert(entry(before, t) == partial_count(stones, keys, t));
                    assert(entry(stones_map@, key as nat) == count_of(stones, key as nat));
                    assert(0 * count_of(blink_one(key as nat), t) == 0) by (nonlinear_arith);
                }
            }
        }
    }
    proof {
        assert(seen == all.len());
        assert forall|stones: Seq<nat>| #[trigger] counts(stones_map@, stones) implies counts(
            new_map@,
            blink(stones),
        ) by {
            assert forall|t: nat| #[trigger] entry(new_map@, t) == count_of(blink(stones), t) by {
                assert forall|i: int| 0 <= i < stones.len() implies keys_before(all, seen).contains(
                    #[trigger] stones[i],
                ) by {
                    lemma_count_positive(stones, i);
                    assert(entry(stones_map@, stones[i]) == count_of(stones, stones[i]));
                    let k = stones[i] as usize;
                    assert(stones_map@.contains_key(k));
                    let x = choose|x: int| 0 <= x < all.len() && *(#[trigger] all[x]).0 == k;
                    assert(*all[x].0 == stones[i]);
                }
                lemma_partial_all(stones, keys_before(all, seen), t);
                assert(entry(new_map@, t) == partial_count(stones, keys_before(all, seen), t));
            }
        }
    }
    Some(new_map)
}

/// Nothing is counted from the stones of no keys.
pub proof fn lemma_partial_none(stones: Seq<nat>, keys: Set<nat>, t: nat)
    requires
        forall|k: nat| !keys.contains(k),
    ensures
        partial_count(stones, keys, t) == 0,
    decreases stones.len(),
{
    if stones.len() > 0 {
        lemma_partial_none(stones.drop_last(), keys, t);
    }
}

/// What the map has for `t` and `value` more fit in a `usize`, as often as
/// `t` stands among what a stone with the number `key` becomes.
pub open spec fn before_fits(before: Map<usize, usize>, key: nat, value: nat, t: nat) -> bool {
    entry(before, t) + value * count_of(blink_one(key), t) <= usize::MAX
}

/// How often `t` stands in a list of one number.
pub proof fn lemma_parts_one(a: nat, t: nat)
    ensures
        count_of(seq![a], t) == (if a == t {
            1nat
        } else {
            0nat
        }),
{
    assert(seq![a].drop_last() =~= Seq::<nat>::empty());
    assert(count_of(seq![a].drop_last(), t) == 0);
}

/// How often `t` stands in a list of two numbers.
pub proof fn lemma_parts_two(a: nat, b: nat, t: nat)
    ensures
        count_of(seq![a, b], t) == (if a == t {
            1nat
        } else {
            0nat
        }) + (if b == t {
            1nat
        } else {
            0nat
        }),
{
    assert(seq![a, b].drop_last() =~= seq![a]);
    lemma_parts_one(a, t);
}

/// The number of a stone is counted at least once.
pub proof fn lemma_count_positive(stones: Seq<nat>, i: int)
    requires
        0 <= i < stones.len(),
    ensures
        count_of(stones, stones[i]) > 0,
    decreases stones.len(),
{
    if i < stones.len() - 1 {
        lemma_count_positive(stones.drop_last(), i);
    }
}

/// One blink first and `j` blinks then are `j + 1` blinks.
pub proof fn lemma_blink_first(stones: Seq<nat>, j: nat)
    ensures
        blink_times(blink(stones), j) == blink_times(stones, j + 1),
    decreases j,
{
    if j > 0 {
        lemma_blink_first(stones, (j - 1) as nat);
    } else {
        assert(blink_times(stones, 1) == blink(blink_times(stones, 0)));
    }
}

/// The number of blinks that are left when `counter` blinks are counted: 75
/// in all.
pub open spec fn blinks_left(counter: usize) -> nat {
    if counter > 74 {
        0
    } else {
        (75 - counter) as nat
    }
}

/// The map counts stones that fit after each number of blinks up to `k`.
pub open spec fn map_fits(map: Map<usize, usize>, k: nat) -> bool {
    exists|stones: Seq<nat>| #[trigger] counts(map, stones) && blinks_fit(stones, k)
}

/// The stones after the blinks that are left, counted, or `None` where a
/// number or a count on the way does not fit in a `usize`.
pub fn try_iterate_stones_map(stones_map: &HashMap<usize, usize>, counter: usize) -> (r: Option<
    HashMap<usize, usize>,
>)
    ensures
        map_fits(stones_map@, blinks_left(counter)) ==> r is Some,
        r matches Some(result) ==> forall|stones: Seq<nat>| #[trigger]
            counts(stones_map@, stones) ==> counts(result@, blink_times(stones, blinks_left(counter))),
    decreases blinks_left(counter),
{
    if counter > 74 {
        return Some(stones_map.clone());
    }
    let ghost fits = map_fits(stones_map@, blinks_left(counter));
    let ghost witness = choose|stones: Seq<nat>| #[trigger]
        counts(stones_map@, stones) && blinks_fit(stones, blinks_left(counter));
    proof {
        if fits {
            assert(stones_fit(blink_times(witness, 1)));
            assert(blink_times(witness, 1) == blink(blink_times(witness, 0)));
            assert(blink_fits(stones_map@));
        }
    }
    let new_map = match try_blink_map(stones_map) {
        Some(new_map) => new_map,
        None => {
            return None;
        },
    };
    proof {
        if fits {
            assert(counts(new_map@, blink(witness)));
            assert forall|j: nat| j <= blinks_left((counter + 1) as usize) implies stones_fit(
                #[trigger] blink_times(blink(witness), j),
            ) by {
                lemma_blink_first(witness, j);
                assert(stones_fit(blink_times(witness, j + 1)));
            }
            assert(blinks_fit(blink(witness), blinks_left((counter + 1) as usize)));
            assert(map_fits(new_map@, blinks_left((counter + 1) as usize)));
        }
    }
    let result = match try_iterate_stones_map(&new_map, counter + 1) {
        Some(result) => result,
        None => {
            return None;
        },
    };
    proof {
        assert forall|stones: Seq<nat>| #[trigger] counts(stones_map@, stones) implies counts(
            result@,
            blink_times(stones, blinks_left(counter)),
        ) by {
            assert(counts(new_map@, blink(stones)));
            lemma_blink_first(stones, blinks_left((counter + 1) as usize));
        }
    }
    Some(result)
}

/// The stones after the blinks that are left, counted.
pub fn iterate_stones_map(stones_map: &HashMap<usize, usize>, counter: usize) -> (result: HashMap<
    usize,
    usize,
>)
    requires
        map_fits(stones_map@, blinks_left(counter)),
    ensures
        forall|stones: Seq<nat>| #[trigger]
            counts(stones_map@, stones) ==> counts(result@, blink_times(stones, blinks_left(counter))),
{
    try_iterate_stones_map(stones_map, counter).unwrap()
}

/// How many of the stones carry a number that is in `keys`.
pub open spec fn members(stones: Seq<nat>, keys: Set<nat>) -> nat
    decreases stones.len(),
{
    if stones.len() == 0 {
        0
    } else {
        members(stones.drop_last(), keys) + (if keys.contains(stones.last()) {
            1nat
        } else {
            0nat
        })
    }
}

/// The stones with a number among some keys are no more than all stones;
/// they are all stones where every number is among the keys.
pub proof fn lemma_members(stones: Seq<nat>, keys: Set<nat>)
    ensures
        members(stones, keys) <= stones.len(),
        (forall|i: int| 0 <= i < stones.len() ==> keys.contains(#[trigger] stones[i])) ==> members(
            stones,
            keys,
        ) == stones.len(),
        (forall|k: nat| !keys.contains(k)) ==> members(stones, keys) == 0,
    decreases stones.len(),
{
    if stones.len() > 0 {
        lemma_members(stones.drop_last(), keys);
        if forall|i: int| 0 <= i < stones.len() ==> keys.contains(#[trigger] stones[i]) {
            assert forall|i: int| 0 <= i < stones.drop_last().len() implies keys.contains(
                #[trigger] stones.drop_last()[i],
            ) by {
                assert(stones.drop_last()[i] == stones[i]);
            }
            assert(keys.contains(stones[stones.len() - 1]));
        }
    }
}

/// One more number among the keys adds the stones that carry it.
pub proof fn lemma_members_insert(stones: Seq<nat>, keys: Set<nat>, s: nat)
    requires
        !keys.contains(s),
    ensures
        members(stones, keys.insert(s)) == members(stones, keys) + count_of(stones, s),
    decreases stones.len(),
{
    if stones.len() > 0 {
        lemma_members_insert(stones.drop_last(), keys, s);
    }
}

/// The map counts stones whose number fits in a `usize`.
pub open spec fn count_fits(map: Map<usize, usize>) -> bool {
    exists|stones: Seq<nat>| #[trigger] counts(map, stones) && stones.len() <= usize::MAX
}

/// The number of stones that the map counts.
pub fn count_stones(stones_map: &HashMap<usize, usize>) -> (total: usize)
    requires
        count_fits(stones_map@),
    ensures
        forall|stones: Seq<nat>| #[trigger] counts(stones_map@, stones) ==> total == stones.len(),
{
    try_count_stones(stones_map).unwrap()
}

/// The number of stones that the map counts, or `None` where it does not
/// fit in a `usize`.
pub fn try_count_stones(stones_map: &HashMap<usize, usize>) -> (r: Option<usize>)
    ensures
        count_fits(stones_map@) ==> r is Some,
        r matches Some(total) ==> forall|stones: Seq<nat>| #[trigger]
            counts(stones_map@, stones) ==> total == stones.len(),
{
    broadcast use vstd::std_specs::hash::group_hash_axioms;

    let ghost fits = count_fits(stones_map@);
    let ghost witness = choose|stones: Seq<nat>| #[trigger]
        counts(stones_map@, stones) && stones.len() <= usize::MAX;
    let mut total: usize = 0;
    let ghost all = vstd::std_specs::hash::spec_hash_map_iter(stones_map).remaining();
    let ghost mut seen: int = 0;
    proof {
        assert forall|stones: Seq<nat>| #[trigger] members(stones, keys_before(all, 0)) == 0 by {
            lemma_members(stones, keys_before(all, 0));
        }
    }
    for pair in it: stones_map.iter()
        invariant
            it.seq() == all,
            seen == it.index(),
            all.no_duplicates(),
            fits == count_fits(stones_map@),
            fits ==> counts(stones_map@, witness) && witness.len() <= usize::MAX,
            forall|i: int|
                0 <= i < all.len() ==> stones_map@.contains_key(*(#[trigger] all[i]).0) && stones_map@[*all[i].0]
                    == *all[i].1,
            forall|k: usize| #[trigger]
                stones_map@.contains_key(k) ==> exists|i: int| 0 <= i < all.len() && *(#[trigger] all[i]).0 == k,
            forall|stones: Seq<nat>|
                counts(stones_map@, stones) ==> total == #[trigger] members(stones, keys_before(all, seen)),
    {
        let (key, value) = pair;
        let ghost at = it.index() as int;
        let ghost keys = keys_before(all, at);
        let ghost more = keys_before(all, at + 1);
        proof {
            assert(pair == all[at]);
            assert(!keys.contains(*key as nat)) by {
                if keys.contains(*key as nat) {
                    let i = choose|i: int| 0 <= i < at && *(#[trigger] all[i]).0 == *key as nat;
                    assert(stones_map@[*all[i].0] == *all[i].1);
                    assert(all[i] == all[at]);
                }
            }
            assert(more =~= keys.insert(*key as nat)) by {
                assert forall|k: nat| more.contains(k) <==> keys.insert(*key as nat).contains(k) by {
                    if more.contains(k) {
                        let i = choose|i: int| 0 <= i < at + 1 && *(#[trigger] all[i]).0 == k;
                        if i < at {
                            assert(keys.contains(k));
                        }
                    }
                    if keys.contains(k) {
                        let i = choose|i: int| 0 <= i < at && *(#[trigger] all[i]).0 == k;
                        assert(0 <= i < at + 1 && *all[i].0 == k);
                    }
                    if k == *key as nat {
                        assert(*all[at].0 == k);
                    }
                }
            }
            assert(entry(stones_map@, *key as nat) == *value);
            assert forall|stones: Seq<nat>| counts(stones_map@, stones) implies total + *value
                == #[trigger] members(stones, more) by {
                lemma_members_insert(stones, keys, *key as nat);
                assert(entry(stones_map@, *key as nat) == count_of(stones, *key as nat));
                assert(total == members(stones, keys));
            }
            if fits {
                lemma_members(witness, more);
                assert(total + *value == members(witness, more));
            }
            seen = seen + 1;
        }
        if total > usize::MAX - *value {
            return None;
        }
        total = total + *value;
    }
    proof {
        assert(seen == all.len());
        assert forall|stones: Seq<nat>| #[trigger] counts(stones_map@, stones) implies total
            == stones.len() by {
            assert forall|i: int| 0 <= i < stones.len() implies keys_before(all, seen).contains(
                #[trigger] stones[i],
            ) by {
                lemma_count_positive(stones, i);
                assert(entry(stones_map@, stones[i]) == count_of(stones, stones[i]));
                let k = stones[i] as usize;
                assert(stones_map@.contains_key(k));
                let x = choose|x: int| 0 <= x < all.len() && *(#[trigger] all[x]).0 == k;
                assert(*all[x].0 == stones[i]);
            }
            lemma_members(stones, keys_before(all, seen));
            assert(total == members(stones, keys_before(all, seen)));
        }
    }
    Some(total)
}

} // verus!
