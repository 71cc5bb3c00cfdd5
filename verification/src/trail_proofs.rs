//! Trails as sequences of cells, and why counting by neighbours counts them.

use crate::cell_set::lemma_cells_len_bound;
use crate::grid::{
    cell_is, is_addressable, is_rectangular, lemma_positions_of, positions_of, width_of, Coord,
};
use crate::trails::{adjacent, count_after, count_from, digit_char, next_to, reaches_after, reaches_from, Path};
use vstd::prelude::*;
use vstd::relations::injective_on;
use vstd::set_lib::{lemma_map_size, lemma_map_size_bound, lemma_set_disjoint_lens};

verus! {

/// Cell `i` of the walk `p` holds the digit `from + i`.
pub open spec fn holds_digit(m: Seq<Seq<char>>, p: Seq<Coord>, i: int, from: int) -> bool {
    cell_is(m, p[i].row as int, p[i].col as int, digit_char(from + i))
}

/// Cells `i` and `i + 1` of the walk `p` are orthogonal neighbours.
pub open spec fn linked(p: Seq<Coord>, i: int) -> bool {
    adjacent(p[i], p[i + 1])
}

/// `p` is a walk over neighbouring cells of `m` whose digits rise by one at
/// each step, from `from` in its first cell to 9 in its last.
pub open spec fn is_climb(m: Seq<Seq<char>>, p: Seq<Coord>, from: int) -> bool {
    &&& 0 <= from <= 9
    &&& p.len() == 10 - from
    &&& forall|i: int| 0 <= i < p.len() ==> #[trigger] holds_digit(m, p, i, from)
    &&& forall|i: int| 0 <= i < p.len() - 1 ==> #[trigger] linked(p, i)
}

/// A trail: a rising walk from a `0` to a `9`.
pub open spec fn is_trail(m: Seq<Seq<char>>, p: Seq<Coord>) -> bool {
    is_climb(m, p, 0)
}

/// All trails of `m`.
pub open spec fn trails(m: Seq<Seq<char>>) -> Set<Seq<Coord>> {
    Set::new(|p: Seq<Coord>| is_trail(m, p))
}

/// The two ends of a walk.
pub open spec fn ends_of(p: Seq<Coord>) -> Path {
    Path { start: p.first(), end: p.last() }
}

/// The pairs of a `0` and a `9` that some trail joins.
pub open spec fn trail_ends(m: Seq<Seq<char>>) -> Set<Path> {
    Set::new(|e: Path| exists|p: Seq<Coord>| is_trail(m, p) && #[trigger] ends_of(p) == e)
}

/// The rising walks that start in the cell `(r, c)` with the digit `d`.
pub open spec fn climbs_from(m: Seq<Seq<char>>, r: int, c: int, d: int) -> Set<Seq<Coord>> {
    Set::new(|p: Seq<Coord>| is_climb(m, p, d) && p[0].row == r && p[0].col == c)
}

/// The rising walks that start with the digit `d + 1` next to `(r, c)`.
pub open spec fn climbs_after(m: Seq<Seq<char>>, r: int, c: int, d: int) -> Set<Seq<Coord>> {
    Set::new(|q: Seq<Coord>| is_climb(m, q, d + 1) && next_to(r, c, q[0]))
}

/// How many ways lead from `(r, c)`, taken to hold the digit `d`, up to a `9`.
pub open spec fn ways_after(m: Seq<Seq<char>>, r: int, c: int, d: int) -> nat {
    if d >= 9 {
        1
    } else {
        climbs_after(m, r, c, d).len()
    }
}

/// Where the ways from `(r, c)`, taken to hold the digit `d`, end.
pub open spec fn summits_after(m: Seq<Seq<char>>, r: int, c: int, d: int) -> Set<Coord> {
    if d >= 9 {
        Set::new(|e: Coord| e.row == r && e.col == c)
    } else {
        Set::new(|e: Coord| exists|q: Seq<Coord>| climbs_after(m, r, c, d).contains(q) && #[trigger] q.last() == e)
    }
}

/// A rising walk without its first cell is a rising walk from the next digit.
proof fn lemma_tail_of_climb(m: Seq<Seq<char>>, p: Seq<Coord>, d: int)
    requires
        is_climb(m, p, d),
        d < 9,
    ensures
        is_climb(m, p.subrange(1, p.len() as int), d + 1),
        adjacent(p[0], p[1]),
        p =~= seq![p[0]] + p.subrange(1, p.len() as int),
        p.subrange(1, p.len() as int).last() == p.last(),
{
    let q = p.subrange(1, p.len() as int);
    assert forall|i: int| 0 <= i < q.len() implies #[trigger] holds_digit(m, q, i, d + 1) by {
        assert(holds_digit(m, p, i + 1, d));
    }
    assert forall|i: int| 0 <= i < q.len() - 1 implies #[trigger] linked(q, i) by {
        assert(linked(p, i + 1));
    }
    assert(linked(p, 0));
}

/// A rising walk behind a neighbour that holds the digit before is a rising walk.
proof fn lemma_prepend_to_climb(m: Seq<Seq<char>>, at: Coord, q: Seq<Coord>, d: int)
    requires
        is_climb(m, q, d + 1),
        0 <= d,
        adjacent(at, q[0]),
        cell_is(m, at.row as int, at.col as int, digit_char(d)),
    ensures
        is_climb(m, seq![at] + q, d),
        (seq![at] + q).subrange(1, (seq![at] + q).len() as int) =~= q,
        (seq![at] + q)[0] == at,
        (seq![at] + q).last() == q.last(),
{
    let p = seq![at] + q;
    assert forall|i: int| 0 <= i < p.len() implies #[trigger] holds_digit(m, p, i, d) by {
        if i > 0 {
            assert(holds_digit(m, q, i - 1, d + 1));
            assert(p[i] == q[i - 1]);
        }
    }
    assert forall|i: int| 0 <= i < p.len() - 1 implies #[trigger] linked(p, i) by {
        if i > 0 {
            assert(linked(q, i - 1));
            assert(p[i] == q[i - 1]);
            assert(p[i + 1] == q[i]);
        } else {
            assert(p[1] == q[0]);
        }
    }
}

/// The rising walks next to a position are as many as the count by neighbours
/// says, and end where it says.
pub proof fn lemma_climbs_after(m: Seq<Seq<char>>, r: int, c: int, d: int)
    requires
        0 <= d < 9,
        is_addressable(m),
    ensures
        climbs_after(m, r, c, d).finite(),
        climbs_after(m, r, c, d).len() == count_after(m, r, c, d),
        forall|e: Coord|
            reaches_after(m, r, c, d, e) <==> exists|q: Seq<Coord>|
                climbs_after(m, r, c, d).contains(q) && #[trigger] q.last() == e,
    decreases 9 - d, 0int,
{
    let s0 = climbs_from(m, r, c + 1, d + 1);
    let s1 = climbs_from(m, r + 1, c, d + 1);
    let s2 = climbs_from(m, r, c - 1, d + 1);
    let s3 = climbs_from(m, r - 1, c, d + 1);
    lemma_climbs_from(m, r, c + 1, d + 1);
    lemma_climbs_from(m, r + 1, c, d + 1);
    lemma_climbs_from(m, r, c - 1, d + 1);
    lemma_climbs_from(m, r - 1, c, d + 1);
    let all = climbs_after(m, r, c, d);
    assert(all =~= s0 + s1 + s2 + s3);
    assert(s0.disjoint(s1));
    assert((s0 + s1).disjoint(s2));
    assert((s0 + s1 + s2).disjoint(s3));
    lemma_set_disjoint_lens(s0, s1);
    lemma_set_disjoint_lens(s0 + s1, s2);
    lemma_set_disjoint_lens(s0 + s1 + s2, s3);
    assert forall|e: Coord|
        reaches_after(m, r, c, d, e) <==> exists|q: Seq<Coord>|
            all.contains(q) && #[trigger] q.last() == e by {
        assert(reaches_after(m, r, c, d, e) == (reaches_from(m, r, c + 1, d + 1, e) || reaches_from(
            m,
            r + 1,
            c,
            d + 1,
            e,
        ) || reaches_from(m, r, c - 1, d + 1, e) || reaches_from(m, r - 1, c, d + 1, e)));
        if reaches_after(m, r, c, d, e) {
            if reaches_from(m, r, c + 1, d + 1, e) {
                let q = choose|q: Seq<Coord>| s0.contains(q) && #[trigger] q.last() == e;
                assert(all.contains(q) && q.last() == e);
            } else if reaches_from(m, r + 1, c, d + 1, e) {
                let q = choose|q: Seq<Coord>| s1.contains(q) && #[trigger] q.last() == e;
                assert(all.contains(q) && q.last() == e);
            } else if reaches_from(m, r, c - 1, d + 1, e) {
                let q = choose|q: Seq<Coord>| s2.contains(q) && #[trigger] q.last() == e;
                assert(all.contains(q) && q.last() == e);
            } else {
                assert(reaches_from(m, r - 1, c, d + 1, e));
                let q = choose|q: Seq<Coord>| s3.contains(q) && #[trigger] q.last() == e;
                assert(all.contains(q) && q.last() == e);
            }
        }
        if exists|q: Seq<Coord>| all.contains(q) && #[trigger] q.last() == e {
            let q = choose|q: Seq<Coord>| all.contains(q) && #[trigger] q.last() == e;
            assert(s0.contains(q) || s1.contains(q) || s2.contains(q) || s3.contains(q));
            if s0.contains(q) {
                assert(reaches_from(m, r, c + 1, d + 1, e));
            } else if s1.contains(q) {
                assert(reaches_from(m, r + 1, c, d + 1, e));
            } else if s2.contains(q) {
                assert(reaches_from(m, r, c - 1, d + 1, e));
            } else {
                assert(reaches_from(m, r - 1, c, d + 1, e));
            }
        }
    }
}

/// The rising walks that start in a cell are as many as the count by
/// neighbours says, and end where it says.
pub proof fn lemma_climbs_from(m: Seq<Seq<char>>, r: int, c: int, d: int)
    requires
        0 <= d <= 9,
        is_addressable(m),
    ensures
        climbs_from(m, r, c, d).finite(),
        climbs_from(m, r, c, d).len() == count_from(m, r, c, d),
        forall|e: Coord|
            reaches_from(m, r, c, d, e) <==> exists|p: Seq<Coord>|
                climbs_from(m, r, c, d).contains(p) && #[trigger] p.last() == e,
    decreases 9 - d, 1int,
{
    let from = climbs_from(m, r, c, d);
    if !cell_is(m, r, c, digit_char(d)) {
        assert forall|p: Seq<Coord>| !from.contains(p) by {
            if from.contains(p) {
                assert(holds_digit(m, p, 0, d));
            }
        }
        assert(from =~= Set::<Seq<Coord>>::empty());
    } else {
        let at = Coord { row: r as usize, col: c as usize };
        if d == 9 {
            let only = seq![at];
            assert forall|i: int| 0 <= i < only.len() implies #[trigger] holds_digit(m, only, i, d) by {}
            assert(is_climb(m, only, d));
            assert forall|p: Seq<Coord>| from.contains(p) implies p == only by {
                assert(p =~= only);
            }
            assert(from =~= set![only]);
            assert forall|e: Coord|
                reaches_from(m, r, c, d, e) <==> exists|p: Seq<Coord>|
                    from.contains(p) && #[trigger] p.last() == e by {
                if reaches_from(m, r, c, d, e) {
                    assert(from.contains(only) && only.last() == e);
                }
            }
        } else {
            lemma_climbs_after(m, r, c, d);
            let after = climbs_after(m, r, c, d);
            let f = |q: Seq<Coord>| seq![at] + q;
            assert forall|q1: Seq<Coord>, q2: Seq<Coord>|
                after.contains(q1) && after.contains(q2) && #[trigger] f(q1) == #[trigger] f(
                    q2,
                ) implies q1 == q2 by {
                assert(q1 =~= f(q1).subrange(1, f(q1).len() as int));
                assert(q2 =~= f(q2).subrange(1, f(q2).len() as int));
            }
            assert(injective_on(f, after));
            assert forall|p: Seq<Coord>| after.map(f).contains(p) <==> from.contains(p) by {
                if after.map(f).contains(p) {
                    let q = choose|q: Seq<Coord>| after.contains(q) && p == f(q);
                    lemma_prepend_to_climb(m, at, q, d);
                }
                if from.contains(p) {
                    lemma_tail_of_climb(m, p, d);
                    let q = p.subrange(1, p.len() as int);
                    assert(p[0] == at);
                    assert(after.contains(q));
                    assert(p == f(q));
                }
            }
            assert(after.map(f) =~= from);
            lemma_map_size(after, from, f);
            assert forall|e: Coord|
                reaches_from(m, r, c, d, e) <==> exists|p: Seq<Coord>|
                    from.contains(p) && #[trigger] p.last() == e by {
                if reaches_from(m, r, c, d, e) {
                    assert(reaches_after(m, r, c, d, e));
                    let q = choose|q: Seq<Coord>| after.contains(q) && #[trigger] q.last() == e;
                    lemma_prepend_to_climb(m, at, q, d);
                    assert(from.contains(f(q)) && f(q).last() == e);
                }
                if exists|p: Seq<Coord>| from.contains(p) && #[trigger] p.last() == e {
                    let p = choose|p: Seq<Coord>| from.contains(p) && #[trigger] p.last() == e;
                    lemma_tail_of_climb(m, p, d);
                    let q = p.subrange(1, p.len() as int);
                    assert(after.contains(q) && q.last() == e);
                    assert(reaches_after(m, r, c, d, e));
                }
            }
        }
    }
}

/// The sum, over the first `k` cells of `starts`, of the rising walks counted
/// from each of them as a `0`.
pub open spec fn ways_from_starts(m: Seq<Seq<char>>, starts: Seq<Coord>, k: int) -> nat
    decreases k,
{
    if k <= 0 {
        0
    } else {
        ways_from_starts(m, starts, k - 1) + count_after(
            m,
            starts[k - 1].row as int,
            starts[k - 1].col as int,
            0,
        )
    }
}

/// The ends of the rising walks from the first `k` cells of `starts`, each
/// paired with its start.
pub open spec fn ends_from_starts(m: Seq<Seq<char>>, starts: Seq<Coord>, k: int) -> Set<Path> {
    Set::new(
        |e: Path|
            exists|j: int|
                0 <= j < k && #[trigger] starts[j] == e.start && reaches_after(
                    m,
                    e.start.row as int,
                    e.start.col as int,
                    0,
                    e.end,
                ),
    )
}

/// The sum over more start cells is no smaller.
pub proof fn lemma_ways_from_starts_monotone(m: Seq<Seq<char>>, starts: Seq<Coord>, a: int, b: int)
    requires
        a <= b,
    ensures
        ways_from_starts(m, starts, a) <= ways_from_starts(m, starts, b),
    decreases b,
{
    if b > 0 && a < b {
        lemma_ways_from_starts_monotone(m, starts, a, b - 1);
    }
}

/// The trails that start in one of the first `k` cells with a `0`.
spec fn trails_from_first(m: Seq<Seq<char>>, zeros: Seq<Coord>, k: int) -> Set<Seq<Coord>> {
    Set::new(|p: Seq<Coord>| is_trail(m, p) && exists|j: int| 0 <= j < k && #[trigger] zeros[j] == p[0])
}

proof fn lemma_trails_from_first(m: Seq<Seq<char>>, zeros: Seq<Coord>, k: int)
    requires
        is_rectangular(m),
        is_addressable(m),
        zeros == positions_of(m, '0', m.len() as int, 0),
        0 <= k <= zeros.len(),
    ensures
        trails_from_first(m, zeros, k).finite(),
        trails_from_first(m, zeros, k).len() == ways_from_starts(m, zeros, k),
    decreases k,
{
    lemma_positions_of(m, '0', m.len() as int, 0);
    if k == 0 {
        assert(trails_from_first(m, zeros, k) =~= Set::<Seq<Coord>>::empty());
    } else {
        lemma_trails_from_first(m, zeros, k - 1);
        let z = zeros[k - 1];
        lemma_climbs_from(m, z.row as int, z.col as int, 0);
        let before = trails_from_first(m, zeros, k - 1);
        let here = climbs_from(m, z.row as int, z.col as int, 0);
        assert forall|p: Seq<Coord>| trails_from_first(m, zeros, k).contains(p) <==> (before + here).contains(
            p,
        ) by {
            if trails_from_first(m, zeros, k).contains(p) {
                let j = choose|j: int| 0 <= j < k && #[trigger] zeros[j] == p[0];
                if j < k - 1 {
                    assert(before.contains(p));
                } else {
                    assert(here.contains(p));
                }
            }
            if before.contains(p) {
                let j = choose|j: int| 0 <= j < k - 1 && #[trigger] zeros[j] == p[0];
                assert(0 <= j < k && zeros[j] == p[0]);
            }
            if here.contains(p) {
                assert(zeros[k - 1] == p[0]);
            }
        }
        assert(trails_from_first(m, zeros, k) =~= before + here);
        assert(before.disjoint(here)) by {
            assert forall|p: Seq<Coord>| !(before.contains(p) && here.contains(p)) by {
                if before.contains(p) && here.contains(p) {
                    let j = choose|j: int| 0 <= j < k - 1 && #[trigger] zeros[j] == p[0];
                    assert(zeros[j] == zeros[k - 1]);
                }
            }
        }
        lemma_set_disjoint_lens(before, here);
        assert(cell_is(m, z.row as int, z.col as int, '0'));
        assert(count_from(m, z.row as int, z.col as int, 0) == count_after(
            m,
            z.row as int,
            z.col as int,
            0,
        ));
    }
}

/// Counting from every `0` in row-major order counts every trail once, and
/// finds every pair of ends that a trail joins.
pub proof fn lemma_trails_by_start(m: Seq<Seq<char>>)
    requires
        is_rectangular(m),
        is_addressable(m),
    ensures
        trails(m).finite(),
        trails(m).len() == ways_from_starts(
            m,
            positions_of(m, '0', m.len() as int, 0),
            positions_of(m, '0', m.len() as int, 0).len() as int,
        ),
        trail_ends(m) == ends_from_starts(
            m,
            positions_of(m, '0', m.len() as int, 0),
            positions_of(m, '0', m.len() as int, 0).len() as int,
        ),
{
    let zeros = positions_of(m, '0', m.len() as int, 0);
    let n = zeros.len() as int;
    lemma_positions_of(m, '0', m.len() as int, 0);
    lemma_trails_from_first(m, zeros, n);
    assert forall|p: Seq<Coord>| trails(m).contains(p) implies trails_from_first(m, zeros, n).contains(
        p,
    ) by {
        assert(holds_digit(m, p, 0, 0));
        assert(zeros.contains(p[0]));
        let j = choose|j: int| 0 <= j < zeros.len() && zeros[j] == p[0];
        assert(0 <= j < n && zeros[j] == p[0]);
    }
    assert(trails(m) =~= trails_from_first(m, zeros, n));
    assert forall|e: Path| trail_ends(m).contains(e) <==> ends_from_starts(m, zeros, n).contains(e) by {
        lemma_climbs_from(m, e.start.row as int, e.start.col as int, 0);
        if trail_ends(m).contains(e) {
            let p = choose|p: Seq<Coord>| is_trail(m, p) && #[trigger] ends_of(p) == e;
            assert(holds_digit(m, p, 0, 0));
            assert(zeros.contains(p[0]));
            let j = choose|j: int| 0 <= j < zeros.len() && zeros[j] == p[0];
            assert(0 <= j < n && zeros[j] == e.start);
            assert(climbs_from(m, e.start.row as int, e.start.col as int, 0).contains(p) && p.last()
                == e.end);
            assert(reaches_from(m, e.start.row as int, e.start.col as int, 0, e.end));
        }
        if ends_from_starts(m, zeros, n).contains(e) {
            let j = choose|j: int|
                0 <= j < n && #[trigger] zeros[j] == e.start && reaches_after(
                    m,
                    e.start.row as int,
                    e.start.col as int,
                    0,
                    e.end,
                );
            assert(cell_is(m, e.start.row as int, e.start.col as int, '0'));
            assert(reaches_from(m, e.start.row as int, e.start.col as int, 0, e.end));
            let p = choose|p: Seq<Coord>|
                climbs_from(m, e.start.row as int, e.start.col as int, 0).contains(p) && #[trigger] p.last()
                    == e.end;
            assert(is_trail(m, p) && ends_of(p) == e);
        }
    }
    assert(trail_ends(m) =~= ends_from_starts(m, zeros, n));
}

/// The pairs of ends that trails join are no more than the trails: each pair
/// is the pair of ends of at least one trail.
pub proof fn lemma_unique_at_most_total(m: Seq<Seq<char>>)
    requires
        is_rectangular(m),
        is_addressable(m),
    ensures
        trails(m).finite(),
        trail_ends(m).finite(),
        trail_ends(m).len() <= trails(m).len(),
{
    lemma_trails_by_start(m);
    let f = |p: Seq<Coord>| ends_of(p);
    assert forall|e: Path| trails(m).map(f).contains(e) <==> trail_ends(m).contains(e) by {
        if trails(m).map(f).contains(e) {
            let p = choose|p: Seq<Coord>| trails(m).contains(p) && e == f(p);
            assert(is_trail(m, p) && ends_of(p) == e);
        }
        if trail_ends(m).contains(e) {
            let p = choose|p: Seq<Coord>| is_trail(m, p) && #[trigger] ends_of(p) == e;
            assert(trails(m).contains(p) && e == f(p));
        }
    }
    assert(trails(m).map(f) =~= trail_ends(m));
    lemma_map_size_bound(trails(m), trail_ends(m), f);
}

/// Four to the power of `k`.
pub open spec fn four_to(k: nat) -> nat
    decreases k,
{
    if k == 0 {
        1
    } else {
        4 * four_to((k - 1) as nat)
    }
}

/// The most rising walks that can start in one cell with a `0`: four ways
/// on at each of nine steps.
pub open spec fn most_ways() -> nat {
    262144
}

/// From a cell with the digit `d` at most four to the power of `9 - d` rising walks start.
pub proof fn lemma_count_after_bound(m: Seq<Seq<char>>, r: int, c: int, d: int)
    requires
        0 <= d <= 9,
    ensures
        count_after(m, r, c, d) <= four_to((9 - d) as nat),
        count_from(m, r, c, d) <= four_to((9 - d) as nat),
    decreases 9 - d,
{
    if d < 9 {
        lemma_count_after_bound(m, r, c + 1, d + 1);
        lemma_count_after_bound(m, r + 1, c, d + 1);
        lemma_count_after_bound(m, r, c - 1, d + 1);
        lemma_count_after_bound(m, r - 1, c, d + 1);
    }
}

proof fn lemma_ways_from_starts_bound(m: Seq<Seq<char>>, starts: Seq<Coord>, k: int)
    requires
        0 <= k,
    ensures
        ways_from_starts(m, starts, k) <= k * most_ways(),
    decreases k,
{
    if k > 0 {
        lemma_ways_from_starts_bound(m, starts, k - 1);
        lemma_count_after_bound(m, starts[k - 1].row as int, starts[k - 1].col as int, 0);
        assert(four_to(9) == most_ways()) by {
            reveal_with_fuel(four_to, 10);
        }
    }
}

/// A grid has at most 262144 trails for each of its cells.
pub proof fn lemma_trails_bound(m: Seq<Seq<char>>)
    requires
        is_rectangular(m),
        is_addressable(m),
    ensures
        trails(m).finite(),
        trails(m).len() <= most_ways() * (m.len() * width_of(m)),
{
    lemma_trails_by_start(m);
    let zeros = positions_of(m, '0', m.len() as int, 0);
    lemma_positions_of(m, '0', m.len() as int, 0);
    lemma_ways_from_starts_bound(m, zeros, zeros.len() as int);
    zeros.unique_seq_to_set();
    assert forall|p: Coord| #[trigger] zeros.to_set().contains(p) implies p.row < m.len() && p.col
        < width_of(m) by {
        let i = choose|i: int| 0 <= i < zeros.len() && zeros[i] == p;
        assert(cell_is(m, zeros[i].row as int, zeros[i].col as int, '0'));
        assert(m[p.row as int].len() == width_of(m));
    }
    lemma_cells_len_bound(zeros.to_set(), m.len(), width_of(m));
    assert(zeros.len() * most_ways() <= (m.len() * width_of(m)) * most_ways()) by (nonlinear_arith)
        requires
            zeros.len() <= m.len() * width_of(m),
    ;
    assert((m.len() * width_of(m)) * most_ways() == most_ways() * (m.len() * width_of(m)))
        by (nonlinear_arith);
}

/// Grids with the same cells have the same trails: what a search finds
/// depends on the cells alone.
pub proof fn lemma_same_cells_same_trails(first: Seq<Seq<char>>, second: Seq<Seq<char>>)
    requires
        first == second,
    ensures
        trails(first) == trails(second),
        trail_ends(first) == trail_ends(second),
        trails(first).len() == trails(second).len(),
        trail_ends(first).len() == trail_ends(second).len(),
{
}

} // verus!
