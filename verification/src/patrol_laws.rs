//! What holds of every patrol: the visited cells only grow, and on a grid
//! without obstacles an agent walks straight to the edge and leaves.

use crate::direction::Direction;
use crate::grid::{in_bounds, is_addressable, is_rectangular, row_major_lt, scanned_before, width_of, Coord};
use crate::patrol::{
    advance_agents, agents_before, ahead, is_obstacle, run_for, tick, Agent, PatrolState,
};
use vstd::prelude::*;
use vstd::set_lib::lemma_len_subset;

verus! {

/// Letting agents move takes no cell out of the visited ones.
pub proof fn lemma_advance_keeps_visited(m: Seq<Seq<char>>, pending: Seq<Agent>, st: PatrolState)
    ensures
        st.visited.subset_of(advance_agents(m, pending, st).visited),
        st.visited.finite() ==> advance_agents(m, pending, st).visited.finite(),
    decreases pending.len(),
{
    if pending.len() > 0 {
        let a = pending[0];
        let rest = pending.drop_first();
        let (r, c) = ahead(a);
        if !in_bounds(m, r, c) {
            lemma_advance_keeps_visited(m, rest, st);
        } else if is_obstacle(m[r][c]) {
            let turned = Agent { position: a.position, heading: a.heading.clockwise() };
            lemma_advance_keeps_visited(
                m,
                rest,
                PatrolState {
                    visited: st.visited,
                    agents: st.agents.push(turned),
                    counter: st.counter + 1,
                    halted_at: st.halted_at,
                },
            );
        } else {
            let moved = Agent { position: Coord { row: r as usize, col: c as usize }, heading: a.heading };
            lemma_advance_keeps_visited(
                m,
                rest,
                PatrolState {
                    visited: st.visited.insert(a.position),
                    agents: st.agents.push(moved),
                    counter: 0,
                    halted_at: st.halted_at,
                },
            );
        }
    }
}

/// With each tick the visited cells stay visited, so their number does not go down.
pub proof fn lemma_tick_visited_grows(m: Seq<Seq<char>>, st: PatrolState)
    requires
        st.visited.finite(),
    ensures
        st.visited.subset_of(tick(m, st).visited),
        tick(m, st).visited.finite(),
        st.visited.len() <= tick(m, st).visited.len(),
{
    if st.halted_at is None {
        lemma_advance_keeps_visited(
            m,
            st.agents,
            PatrolState {
                visited: st.visited,
                agents: Seq::empty(),
                counter: st.counter,
                halted_at: st.halted_at,
            },
        );
    }
    lemma_len_subset(st.visited, tick(m, st).visited);
}

/// Over any number of ticks the visited cells stay visited.
pub proof fn lemma_run_visited_grows(m: Seq<Seq<char>>, st: PatrolState, limit: nat)
    requires
        st.visited.finite(),
    ensures
        st.visited.subset_of(run_for(m, st, limit).visited),
        run_for(m, st, limit).visited.finite(),
        st.visited.len() <= run_for(m, st, limit).visited.len(),
    decreases limit,
{
    if limit == 0 || crate::patrol::is_finished(st) {
    } else {
        lemma_tick_visited_grows(m, st);
        lemma_run_visited_grows(m, tick(m, st), (limit - 1) as nat);
    }
}

/// No cell of `m` is an obstacle.
pub open spec fn no_obstacles(m: Seq<Seq<char>>) -> bool {
    forall|r: int, c: int| in_bounds(m, r, c) ==> !is_obstacle(#[trigger] m[r][c])
}

/// How many cells lie between an agent and the edge that it faces.
pub open spec fn distance_to_edge(m: Seq<Seq<char>>, a: Agent) -> int {
    match a.heading {
        Direction::North => a.position.row as int,
        Direction::South => m.len() - 1 - a.position.row,
        Direction::West => a.position.col as int,
        Direction::East => width_of(m) - 1 - a.position.col,
    }
}

/// The agent `a` after `k` steps straight ahead.
pub open spec fn walked(a: Agent, k: int) -> Agent {
    Agent {
        position: Coord {
            row: (a.position.row + match a.heading {
                Direction::North => -k,
                Direction::South => k,
                _ => 0,
            }) as usize,
            col: (a.position.col + match a.heading {
                Direction::West => -k,
                Direction::East => k,
                _ => 0,
            }) as usize,
        },
        heading: a.heading,
    }
}

/// A running simulation with the one agent `a` and a counter of zero.
pub open spec fn lone(a: Agent, visited: Set<Coord>) -> PatrolState {
    PatrolState { visited, agents: seq![a], counter: 0, halted_at: None }
}

proof fn lemma_lone_tick(m: Seq<Seq<char>>, a: Agent, visited: Set<Coord>)
    requires
        is_rectangular(m),
        is_addressable(m),
        no_obstacles(m),
        in_bounds(m, a.position.row as int, a.position.col as int),
    ensures
        distance_to_edge(m, a) >= 0,
        distance_to_edge(m, a) > 0 ==> tick(m, lone(a, visited)) == lone(
            walked(a, 1),
            visited.insert(a.position),
        ) && in_bounds(m, walked(a, 1).position.row as int, walked(a, 1).position.col as int)
            && distance_to_edge(m, walked(a, 1)) == distance_to_edge(m, a) - 1,
        distance_to_edge(m, a) == 0 ==> tick(m, lone(a, visited)) == (PatrolState {
            visited,
            agents: Seq::empty(),
            counter: 0,
            halted_at: None,
        }),
{
    reveal_with_fuel(advance_agents, 3);
    let st = lone(a, visited);
    let start = PatrolState { visited, agents: Seq::<Agent>::empty(), counter: 0, halted_at: None };
    let (r, c) = ahead(a);
    assert(m[a.position.row as int].len() == width_of(m));
    assert(st.agents.drop_first() =~= Seq::<Agent>::empty());
    if distance_to_edge(m, a) > 0 {
        assert(in_bounds(m, r, c)) by {
            assert(m[r].len() == width_of(m));
        }
        assert(!is_obstacle(m[r][c]));
        let moved = Agent { position: Coord { row: r as usize, col: c as usize }, heading: a.heading };
        assert(moved == walked(a, 1));
        assert(start.agents.push(moved) =~= seq![moved]);
        assert(tick(m, st) == lone(walked(a, 1), visited.insert(a.position)));
    } else {
        assert(!in_bounds(m, r, c));
        assert(tick(m, st) == start);
    }
}

/// On a grid without obstacles a lone agent walks straight ahead for as many
/// ticks as cells lie between it and the edge; the counter stays at zero and
/// no loop is declared.
pub proof fn lemma_walk_on_open_grid(m: Seq<Seq<char>>, a: Agent, visited: Set<Coord>, k: int)
    requires
        is_rectangular(m),
        is_addressable(m),
        no_obstacles(m),
        in_bounds(m, a.position.row as int, a.position.col as int),
        0 <= k <= distance_to_edge(m, a),
    ensures
        run_for(m, lone(a, visited), k as nat).agents == seq![walked(a, k)],
        run_for(m, lone(a, visited), k as nat).counter == 0,
        run_for(m, lone(a, visited), k as nat).halted_at is None,
    decreases k,
{
    if k == 0 {
        assert(walked(a, 0) == a);
    } else {
        lemma_lone_tick(m, a, visited);
        let next = walked(a, 1);
        lemma_walk_on_open_grid(m, next, visited.insert(a.position), k - 1);
        assert(walked(next, k - 1) == walked(a, k));
        assert(run_for(m, lone(a, visited), k as nat) == run_for(
            m,
            tick(m, lone(a, visited)),
            (k - 1) as nat,
        ));
    }
}

/// On a grid without obstacles a lone agent has left after one tick more than
/// cells lie between it and the edge; the counter is zero and no loop is declared.
pub proof fn lemma_exit_on_open_grid(m: Seq<Seq<char>>, a: Agent, visited: Set<Coord>)
    requires
        is_rectangular(m),
        is_addressable(m),
        no_obstacles(m),
        in_bounds(m, a.position.row as int, a.position.col as int),
    ensures
        distance_to_edge(m, a) >= 0,
        run_for(m, lone(a, visited), (distance_to_edge(m, a) + 1) as nat).agents.len() == 0,
        run_for(m, lone(a, visited), (distance_to_edge(m, a) + 1) as nat).counter == 0,
        run_for(m, lone(a, visited), (distance_to_edge(m, a) + 1) as nat).halted_at is None,
    decreases distance_to_edge(m, a),
{
    lemma_lone_tick(m, a, visited);
    let d = distance_to_edge(m, a);
    assert(run_for(m, lone(a, visited), (d + 1) as nat) == run_for(
        m,
        tick(m, lone(a, visited)),
        d as nat,
    ));
    if d > 0 {
        lemma_exit_on_open_grid(m, walked(a, 1), visited.insert(a.position));
    } else {
        assert(run_for(m, tick(m, lone(a, visited)), 0) == tick(m, lone(a, visited)));
    }
}

/// Grids with the same cells give the same patrol: the state after any
/// number of ticks depends on the cells alone.
pub proof fn lemma_same_cells_same_patrol(first: Seq<Seq<char>>, second: Seq<Seq<char>>, limit: nat)
    requires
        first == second,
    ensures
        run_for(first, crate::patrol::initial_state(first), limit) == run_for(
            second,
            crate::patrol::initial_state(second),
            limit,
        ),
        crate::patrol::loop_placements(first, limit) == crate::patrol::loop_placements(second, limit),
{
}

/// `a` is an agent whose marker stands in `m` at its position.
pub open spec fn is_marked(m: Seq<Seq<char>>, a: Agent) -> bool {
    in_bounds(m, a.position.row as int, a.position.col as int) && Direction::of_marker(
        m[a.position.row as int][a.position.col as int],
    ) == Some(a.heading)
}

/// What the list of agents of a rectangular grid holds, up to a scan
/// position: the agents whose markers stand in the grid before that
/// position, each of them once, in row-major order of their positions.
pub proof fn lemma_agents_before(m: Seq<Seq<char>>, end_r: int, end_c: int)
    requires
        is_rectangular(m),
        is_addressable(m),
        0 <= end_r <= m.len(),
        0 <= end_c <= width_of(m),
        end_r == m.len() ==> end_c == 0,
    ensures
        forall|i: int|
            0 <= i < agents_before(m, end_r, end_c).len() ==> {
                let a = #[trigger] agents_before(m, end_r, end_c)[i];
                is_marked(m, a) && scanned_before(a.position.row as int, a.position.col as int, end_r, end_c)
            },
        forall|a: Agent|
            is_marked(m, a) && scanned_before(a.position.row as int, a.position.col as int, end_r, end_c)
                ==> #[trigger] agents_before(m, end_r, end_c).contains(a),
        forall|i: int, j: int|
            0 <= i < j < agents_before(m, end_r, end_c).len() ==> row_major_lt(
                (#[trigger] agents_before(m, end_r, end_c)[i]).position,
                (#[trigger] agents_before(m, end_r, end_c)[j]).position,
            ),
    decreases end_r, end_c,
{
    let s = agents_before(m, end_r, end_c);
    if end_r == 0 && end_c == 0 {
    } else if end_c == 0 {
        lemma_agents_before(m, end_r - 1, width_of(m) as int);
        let prev = agents_before(m, end_r - 1, width_of(m) as int);
        assert(s == prev);
        assert forall|a: Agent|
            is_marked(m, a) && scanned_before(
                a.position.row as int,
                a.position.col as int,
                end_r,
                end_c,
            ) implies #[trigger] s.contains(a) by {
            assert(m[a.position.row as int].len() == width_of(m));
            assert(scanned_before(a.position.row as int, a.position.col as int, end_r - 1, width_of(m) as int));
            assert(prev.contains(a));
        }
    } else {
        lemma_agents_before(m, end_r, end_c - 1);
        let before = agents_before(m, end_r, end_c - 1);
        assert(m[end_r].len() == width_of(m));
        if Direction::of_marker(m[end_r][end_c - 1]) is Some {
            let here = Agent {
                position: Coord { row: end_r as usize, col: (end_c - 1) as usize },
                heading: Direction::of_marker(m[end_r][end_c - 1])->0,
            };
            assert(s == before.push(here));
            assert forall|i: int, j: int| 0 <= i < j < s.len() implies row_major_lt(
                (#[trigger] s[i]).position,
                (#[trigger] s[j]).position,
            ) by {
                if j == s.len() - 1 {
                    assert(s[i] == before[i]);
                } else {
                    assert(s[i] == before[i] && s[j] == before[j]);
                }
            }
            assert forall|a: Agent|
                is_marked(m, a) && scanned_before(
                    a.position.row as int,
                    a.position.col as int,
                    end_r,
                    end_c,
                ) implies #[trigger] s.contains(a) by {
                if a.position.row == end_r && a.position.col == end_c - 1 {
                    assert(s[s.len() - 1] == a);
                } else {
                    assert(scanned_before(a.position.row as int, a.position.col as int, end_r, end_c - 1));
                    assert(before.contains(a));
                    let i = choose|i: int| 0 <= i < before.len() && before[i] == a;
                    assert(s[i] == a);
                }
            }
        } else {
            assert(s == before);
            assert forall|a: Agent|
                is_marked(m, a) && scanned_before(
                    a.position.row as int,
                    a.position.col as int,
                    end_r,
                    end_c,
                ) implies #[trigger] s.contains(a) by {
                assert(scanned_before(a.position.row as int, a.position.col as int, end_r, end_c - 1));
                assert(before.contains(a));
            }
        }
    }
}

} // verus!
