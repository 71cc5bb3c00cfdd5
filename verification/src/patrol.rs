//! Patrol simulation: agents that walk straight ahead over a grid, turn right
//! in front of an obstacle, and leave when they step over the edge.

use crate::cell_set::CellSet;
use crate::direction::Direction;
use crate::grid::{cell_is, in_bounds, is_addressable, is_rectangular, scanned_before, width_of, Coord, Grid, GridError};
use vstd::prelude::*;

verus! {

/// An agent on the grid.
#[derive(Clone, Copy, Debug, PartialEq, Eq, Structural)]
pub struct Agent {
    pub position: Coord,
    pub heading: Direction,
}

/// How many turns in a row, with no move between them, are still no loop.
pub const LOOP_THRESHOLD: u32 = 4;

/// The state of a simulation as a mathematical value.
pub struct PatrolState {
    /// The cells that some agent has left.
    pub visited: Set<Coord>,
    /// The agents that are on the grid, in the order in which they move.
    pub agents: Seq<Agent>,
    /// The turns made since the last move.
    pub counter: nat,
    /// Where a loop was declared, once one was.
    pub halted_at: Option<Coord>,
}

/// The position in front of an agent.
pub open spec fn ahead(a: Agent) -> (int, int) {
    (a.position.row + a.heading.d_row(), a.position.col + a.heading.d_col())
}

/// Whether a cell blocks the way.
pub open spec fn is_obstacle(ch: char) -> bool {
    ch == '#'
}

/// Whether an agent can make something of a cell: open ground, an obstacle, a
/// cell marked as visited, or the marker of an agent.
pub open spec fn is_known_marker(ch: char) -> bool {
    ch == '.' || ch == '#' || ch == 'X' || Direction::of_marker(ch) is Some
}

/// Every cell of `m` holds a known marker.
pub open spec fn all_known(m: Seq<Seq<char>>) -> bool {
    forall|r: int, c: int| in_bounds(m, r, c) ==> is_known_marker(#[trigger] m[r][c])
}

/// Lets the agents in `pending` move in turn, one step each, from the state
/// `st`, whose agents are those that have moved already in this tick.
/// An agent whose next cell lies outside the grid leaves. One that faces an
/// obstacle turns right, and the counter goes up by one: above the threshold
/// a loop is declared where the agent stands, and the others do not move.
/// Any other agent moves ahead; the cell that it leaves is visited, and the
/// counter goes back to zero.
pub open spec fn advance_agents(m: Seq<Seq<char>>, pending: Seq<Agent>, st: PatrolState) -> PatrolState
    decreases pending.len(),
{
    if pending.len() == 0 {
        st
    } else {
        let a = pending[0];
        let rest = pending.drop_first();
        let (r, c) = ahead(a);
        if !in_bounds(m, r, c) {
            advance_agents(m, rest, st)
        } else if is_obstacle(m[r][c]) {
            let turned = Agent { position: a.position, heading: a.heading.clockwise() };
            if st.counter + 1 > LOOP_THRESHOLD {
                PatrolState {
                    visited: st.visited,
                    agents: st.agents.push(turned) + rest,
                    counter: st.counter + 1,
                    halted_at: Some(a.position),
                }
            } else {
                advance_agents(
                    m,
                    rest,
                    PatrolState {
                        visited: st.visited,
                        agents: st.agents.push(turned),
                        counter: st.counter + 1,
                        halted_at: st.halted_at,
                    },
                )
            }
        } else {
            let moved = Agent { position: Coord { row: r as usize, col: c as usize }, heading: a.heading };
            advance_agents(
                m,
                rest,
                PatrolState {
                    visited: st.visited.insert(a.position),
                    agents: st.agents.push(moved),
                    counter: 0,
                    halted_at: st.halted_at,
                },
            )
        }
    }
}

/// One tick: every agent moves once, in order. A halted simulation stays as it is.
pub open spec fn tick(m: Seq<Seq<char>>, st: PatrolState) -> PatrolState {
    if st.halted_at is Some {
        st
    } else {
        advance_agents(
            m,
            st.agents,
            PatrolState {
                visited: st.visited,
                agents: Seq::empty(),
                counter: st.counter,
                halted_at: st.halted_at,
            },
        )
    }
}

/// Whether nothing is left to simulate: a loop was declared, or no agent is on the grid.
pub open spec fn is_finished(st: PatrolState) -> bool {
    st.halted_at is Some || st.agents.len() == 0
}

/// The state after at most `limit` ticks, stopping as soon as the simulation is finished.
pub open spec fn run_for(m: Seq<Seq<char>>, st: PatrolState, limit: nat) -> PatrolState
    decreases limit,
{
    if limit == 0 || is_finished(st) {
        st
    } else {
        run_for(m, tick(m, st), (limit - 1) as nat)
    }
}

/// The agents whose markers stand in `m` before `(end_r, end_c)`, in row-major order.
pub open spec fn agents_before(m: Seq<Seq<char>>, end_r: int, end_c: int) -> Seq<Agent>
    decreases end_r, end_c,
{
    if end_r < 0 || end_c < 0 || (end_r == 0 && end_c == 0) {
        Seq::empty()
    } else if end_c == 0 {
        agents_before(m, end_r - 1, width_of(m) as int)
    } else {
        let before = agents_before(m, end_r, end_c - 1);
        if in_bounds(m, end_r, end_c - 1) && Direction::of_marker(m[end_r][end_c - 1]) is Some {
            before.push(
                Agent {
                    position: Coord { row: end_r as usize, col: (end_c - 1) as usize },
                    heading: Direction::of_marker(m[end_r][end_c - 1])->0,
                },
            )
        } else {
            before
        }
    }
}

/// The agents whose markers stand in `m`, in row-major order.
pub open spec fn agents_of(m: Seq<Seq<char>>) -> Seq<Agent> {
    agents_before(m, m.len() as int, 0)
}

/// The cells of `m` that are marked as visited.
pub open spec fn marked_visited(m: Seq<Seq<char>>) -> Set<Coord> {
    Set::new(|p: Coord| cell_is(m, p.row as int, p.col as int, 'X'))
}

/// The state in which a simulation on `m` starts.
pub open spec fn initial_state(m: Seq<Seq<char>>) -> PatrolState {
    PatrolState { visited: marked_visited(m), agents: agents_of(m), counter: 0, halted_at: None }
}

/// The agents whose markers stand in the grid, in row-major order.
pub fn get_guard_locations(board: &Grid) -> (locations: Vec<Agent>)
    requires
        board.wf(),
    ensures
        locations@ == agents_of(board@),
        forall|i: int|
            0 <= i < locations@.len() ==> in_bounds(
                board@,
                (#[trigger] locations@[i]).position.row as int,
                locations@[i].position.col as int,
            ),
{
    let mut locations: Vec<Agent> = Vec::new();
    let height = board.height();
    let width = board.width();
    let cells = board.cells();
    proof {
        board.lemma_wf_view();
    }
    let mut row: usize = 0;
    while row < height
        invariant
            board.wf(),
            row <= height,
            height == board@.len(),
            width == width_of(board@),
            is_rectangular(board@),
            crate::grid::matrix_view(cells) == board@,
            locations@ == agents_before(board@, row as int, 0),
            forall|i: int|
                0 <= i < locations@.len() ==> in_bounds(
                    board@,
                    (#[trigger] locations@[i]).position.row as int,
                    locations@[i].position.col as int,
                ),
        decreases height - row,
    {
        let mut col: usize = 0;
        assert(board@[row as int].len() == width);
        assert(board@[row as int] == cells[row as int]@);
        while col < width
            invariant
                board.wf(),
                row < height,
                col <= width,
                height == board@.len(),
                width == width_of(board@),
                width == cells[row as int].len(),
                is_rectangular(board@),
                crate::grid::matrix_view(cells) == board@,
                locations@ == agents_before(board@, row as int, col as int),
                forall|i: int|
                    0 <= i < locations@.len() ==> in_bounds(
                        board@,
                        (#[trigger] locations@[i]).position.row as int,
                        locations@[i].position.col as int,
                    ),
            decreases width - col,
        {
            match Direction::from_marker(cells[row][col]) {
                Some(heading) => {
                    locations.push(Agent { position: Coord { row, col }, heading });
                },
                None => {},
            }
            col += 1;
        }
        row += 1;
    }
    locations
}

/// A simulation of agents on a grid. The grid itself is not changed: the
/// cells that agents have left are kept beside it.
pub struct PatrolSimulator<'a> {
    terrain: &'a Grid,
    visited: CellSet,
    agents: Vec<Agent>,
    loop_counter: u32,
    halted_at: Option<Coord>,
}

impl<'a> View for PatrolSimulator<'a> {
    type V = PatrolState;

    closed spec fn view(&self) -> PatrolState {
        PatrolState {
            visited: self.visited@,
            agents: self.agents@,
            counter: self.loop_counter as nat,
            halted_at: self.halted_at,
        }
    }
}

/// How a run of the simulation ended.
#[derive(Clone, Copy, Debug, PartialEq, Eq, Structural)]
pub enum Outcome {
    /// Every agent has left the grid.
    Exited,
    /// A loop was declared for an agent that stood in this cell.
    LoopDetected(Coord),
    /// The ticks allowed were used up before either happened.
    Unfinished,
}

/// The outcome that belongs to a state.
pub open spec fn outcome_of(st: PatrolState) -> Outcome {
    match st.halted_at {
        Some(at) => Outcome::LoopDetected(at),
        None => if st.agents.len() == 0 {
            Outcome::Exited
        } else {
            Outcome::Unfinished
        },
    }
}

/// Every agent of `agents` stands on a cell of `m`.
pub open spec fn agents_inside(m: Seq<Seq<char>>, agents: Seq<Agent>) -> bool {
    forall|i: int|
        0 <= i < agents.len() ==> in_bounds(
            m,
            (#[trigger] agents[i]).position.row as int,
            agents[i].position.col as int,
        )
}

impl<'a> PatrolSimulator<'a> {
    /// The grid on which the agents move.
    pub closed spec fn terrain(&self) -> Seq<Seq<char>> {
        self.terrain@
    }

    /// The simulation's parts fit together: there is a flag for each cell of
    /// the grid, the agents stand on the grid, and while no loop is declared
    /// the counter is within the threshold.
    pub closed spec fn wf(&self) -> bool {
        &&& self.terrain.wf()
        &&& self.visited.wf()
        &&& self.visited.spec_height() == self.terrain@.len()
        &&& self.visited.spec_width() == width_of(self.terrain@)
        &&& agents_inside(self.terrain@, self.agents@)
        &&& self.halted_at is None ==> self.loop_counter <= LOOP_THRESHOLD
    }

    /// What well-formedness means for the state.
    pub proof fn lemma_wf_state(&self)
        requires
            self.wf(),
        ensures
            is_rectangular(self.terrain()),
            is_addressable(self.terrain()),
            self@.visited.finite(),
            forall|p: Coord| #[trigger]
                self@.visited.contains(p) ==> in_bounds(self.terrain(), p.row as int, p.col as int),
            agents_inside(self.terrain(), self@.agents),
            self@.halted_at is None ==> self@.counter <= LOOP_THRESHOLD,
            self@.visited.len() <= self.terrain().len() * width_of(self.terrain()),
    {
        self.terrain.lemma_wf_view();
        self.visited.lemma_members_in_range();
    }

    /// A simulation on `terrain` in its initial state: an agent for each
    /// marker `^`, `>`, `v` or `<`, and the cells marked `X` visited. A grid with
    /// a cell that holds no known marker is refused with `InvalidCharacter`.
    pub fn new(terrain: &'a Grid) -> (r: Result<PatrolSimulator<'a>, GridError>)
        requires
            terrain.wf(),
        ensures
            all_known(terrain@) ==> r is Ok,
            r matches Ok(sim) ==> all_known(terrain@) && sim.wf() && sim.terrain() == terrain@ && sim@
                == initial_state(terrain@),
            r matches Err(e) ==> e == GridError::InvalidCharacter && !all_known(terrain@),
    {
        let height = terrain.height();
        let width = terrain.width();
        let cells = terrain.cells();
        let mut visited = CellSet::new(height, width);
        proof {
            terrain.lemma_wf_view();
        }
        let ghost m = terrain@;
        let mut row: usize = 0;
        while row < height
            invariant
                terrain.wf(),
                m == terrain@,
                row <= height,
                height == m.len(),
                width == width_of(m),
                is_rectangular(m),
                crate::grid::matrix_view(cells) == m,
                visited.wf(),
                visited.spec_height() == height,
                visited.spec_width() == width,
                visited@ == Set::new(
                    |p: Coord|
                        cell_is(m, p.row as int, p.col as int, 'X') && scanned_before(
                            p.row as int,
                            p.col as int,
                            row as int,
                            0,
                        ),
                ),
                forall|r: int, c: int|
                    in_bounds(m, r, c) && scanned_before(r, c, row as int, 0) ==> is_known_marker(
                        #[trigger] m[r][c],
                    ),
            decreases height - row,
        {
            let mut col: usize = 0;
            assert(m[row as int].len() == width);
            assert(m[row as int] == cells[row as int]@);
            while col < width
                invariant
                    terrain.wf(),
                    m == terrain@,
                    row < height,
                    col <= width,
                    height == m.len(),
                    width == width_of(m),
                    width == cells[row as int].len(),
                    is_rectangular(m),
                    crate::grid::matrix_view(cells) == m,
                    visited.wf(),
                    visited.spec_height() == height,
                    visited.spec_width() == width,
                    visited@ == Set::new(
                        |p: Coord|
                            cell_is(m, p.row as int, p.col as int, 'X') && scanned_before(
                                p.row as int,
                                p.col as int,
                                row as int,
                                col as int,
                            ),
                    ),
                    forall|r: int, c: int|
                        in_bounds(m, r, c) && scanned_before(r, c, row as int, col as int)
                            ==> is_known_marker(#[trigger] m[r][c]),
                decreases width - col,
            {
                let ch = cells[row][col];
                if ch == 'X' {
                    visited.insert(Coord { row, col });
                } else if !(ch == '.' || ch == '#' || Direction::from_marker(ch).is_some()) {
                    assert(in_bounds(m, row as int, col as int) && !is_known_marker(
                        m[row as int][col as int],
                    ));
                    return Err(GridError::InvalidCharacter);
                }
                col += 1;
                assert(visited@ =~= Set::new(
                    |p: Coord|
                        cell_is(m, p.row as int, p.col as int, 'X') && scanned_before(
                            p.row as int,
                            p.col as int,
                            row as int,
                            col as int,
                        ),
                ));
            }
            row += 1;
            assert(visited@ =~= Set::new(
                |p: Coord|
                    cell_is(m, p.row as int, p.col as int, 'X') && scanned_before(
                        p.row as int,
                        p.col as int,
                        row as int,
                        0,
                    ),
            ));
        }
        assert(visited@ =~= marked_visited(m));
        let agents = get_guard_locations(terrain);
        Ok(PatrolSimulator { terrain, visited, agents, loop_counter: 0, halted_at: None })
    }

    /// One tick: every agent moves once, in order, as `tick` says.
    pub fn move_guard(&mut self)
        requires
            old(self).wf(),
        ensures
            final(self).wf(),
            final(self).terrain() == old(self).terrain(),
            final(self)@ == tick(old(self).terrain(), old(self)@),
            old(self)@.visited.subset_of(final(self)@.visited),
            old(self)@.visited.len() <= final(self)@.visited.len(),
    {
        proof {
            old(self).visited.lemma_members_in_range();
            crate::patrol_laws::lemma_tick_visited_grows(old(self).terrain@, old(self)@);
        }
        if self.halted_at.is_some() {
            return ;
        }
        let ghost m = self.terrain@;
        let ghost goal = tick(m, old(self)@);
        let n = self.agents.len();
        let mut kept: Vec<Agent> = Vec::new();
        let mut i: usize = 0;
        proof {
            self.terrain.lemma_wf_view();
            assert(self.agents@.subrange(0, n as int) =~= self.agents@);
        }
        while i < n
            invariant
                i <= n,
                n == self.agents.len(),
                self.agents == old(self).agents,
                self.terrain == old(self).terrain,
                self.halted_at is None,
                m == self.terrain@,
                is_rectangular(m),
                is_addressable(m),
                self.wf(),
                agents_inside(m, kept@),
                goal == tick(old(self).terrain@, old(self)@),
                old(self)@.visited.subset_of(goal.visited),
                old(self)@.visited.len() <= goal.visited.len(),
                goal == advance_agents(
                    m,
                    self.agents@.subrange(i as int, n as int),
                    PatrolState {
                        visited: self.visited@,
                        agents: kept@,
                        counter: self.loop_counter as nat,
                        halted_at: None,
                    },
                ),
            decreases n - i,
        {
            let a = self.agents[i];
            let ghost pending = self.agents@.subrange(i as int, n as int);
            let ghost rest = self.agents@.subrange(i as int + 1, n as int);
            proof {
                assert(pending[0] == a);
                assert(pending.drop_first() =~= rest);
                assert(in_bounds(m, a.position.row as int, a.position.col as int));
            }
            let (d_row, d_col) = a.heading.offset();
            let ghost st = PatrolState {
                visited: self.visited@,
                agents: kept@,
                counter: self.loop_counter as nat,
                halted_at: None,
            };
            let ghost (r, c) = ahead(a);
            proof {
                assert(r == a.position.row + d_row && c == a.position.col + d_col);
                assert(goal == advance_agents(m, pending, st));
            }
            match self.terrain.step(a.position, d_row, d_col) {
                None => {
                    assert(!in_bounds(m, r, c));
                    assert(advance_agents(m, pending, st) == advance_agents(m, rest, st));
                },
                Some(next) => {
                    assert(in_bounds(m, r, c));
                    assert(next.row == r && next.col == c);
                    let blocked = match self.terrain.get(next.row, next.col) {
                        Ok(ch) => ch == '#',
                        Err(_) => false,
                    };
                    assert(blocked == is_obstacle(m[r][c]));
                    if blocked {
                        let turned = Agent { position: a.position, heading: a.heading.turn_right() };
                        kept.push(turned);
                        self.loop_counter = self.loop_counter + 1;
                        proof {
                            if st.counter + 1 > LOOP_THRESHOLD {
                                assert(advance_agents(m, pending, st) == PatrolState {
                                    visited: st.visited,
                                    agents: st.agents.push(turned) + rest,
                                    counter: st.counter + 1,
                                    halted_at: Some(a.position),
                                });
                            } else {
                                assert(advance_agents(m, pending, st) == advance_agents(
                                    m,
                                    rest,
                                    PatrolState {
                                        visited: st.visited,
                                        agents: st.agents.push(turned),
                                        counter: st.counter + 1,
                                        halted_at: st.halted_at,
                                    },
                                ));
                            }
                        }
                        if self.loop_counter > LOOP_THRESHOLD {
                            let mut j: usize = i + 1;
                            let ghost kept_before = kept@;
                            while j < n
                                invariant
                                    i < j <= n,
                                    n == self.agents.len(),
                                    self.agents == old(self).agents,
                                    agents_inside(m, self.agents@),
                                    agents_inside(m, kept@),
                                    kept@ == kept_before + self.agents@.subrange(i as int + 1, j as int),
                                decreases n - j,
                            {
                                kept.push(self.agents[j]);
                                j += 1;
                                assert(kept@ =~= kept_before + self.agents@.subrange(
                                    i as int + 1,
                                    j as int,
                                ));
                            }
                            assert(self.agents@.subrange(i as int + 1, n as int) == rest);
                            assert(kept@ == st.agents.push(turned) + rest);
                            self.agents = kept;
                            self.halted_at = Some(a.position);
                            assert(self@ == goal);
                            return ;
                        }
                    } else {
                        self.visited.insert(a.position);
                        let moved = Agent { position: next, heading: a.heading };
                        kept.push(moved);
                        self.loop_counter = 0;
                        proof {
                            assert(moved == Agent {
                                position: Coord { row: r as usize, col: c as usize },
                                heading: a.heading,
                            });
                            assert(advance_agents(m, pending, st) == advance_agents(
                                m,
                                rest,
                                PatrolState {
                                    visited: st.visited.insert(a.position),
                                    agents: st.agents.push(moved),
                                    counter: 0,
                                    halted_at: st.halted_at,
                                },
                            ));
                        }
                    }
                },
            }
            i += 1;
        }
        self.agents = kept;
    }

    /// The number of cells that agents have left so far.
    pub fn count_guard_positions(&self) -> (n: usize)
        requires
            self.wf(),
            self.terrain().len() * width_of(self.terrain()) <= usize::MAX,
        ensures
            n == self@.visited.len(),
            n <= self.terrain().len() * width_of(self.terrain()),
    {
        self.visited.count()
    }

    /// The cells that agents have left so far, in row-major order.
    pub fn get_all_traversed_guard_positions(&self) -> (positions: Vec<Coord>)
        requires
            self.wf(),
        ensures
            positions@.to_set() == self@.visited,
            positions@.no_duplicates(),
            forall|i: int, j: int|
                0 <= i < j < positions@.len() ==> crate::grid::row_major_lt(
                    #[trigger] positions@[i],
                    #[trigger] positions@[j],
                ),
    {
        self.visited.to_vec()
    }

    /// How the simulation stands: finished with every agent gone, halted in a
    /// loop, or neither.
    pub fn outcome(&self) -> (o: Outcome)
        ensures
            o == outcome_of(self@),
    {
        match self.halted_at {
            Some(at) => Outcome::LoopDetected(at),
            None => if self.agents.len() == 0 {
                Outcome::Exited
            } else {
                Outcome::Unfinished
            },
        }
    }

    /// Runs ticks until every agent has left, a loop is declared, or
    /// `max_ticks` ticks were made.
    pub fn run(&mut self, max_ticks: usize) -> (o: Outcome)
        requires
            old(self).wf(),
        ensures
            final(self).wf(),
            final(self).terrain() == old(self).terrain(),
            final(self)@ == run_for(old(self).terrain(), old(self)@, max_ticks as nat),
            o == outcome_of(final(self)@),
    {
        let mut left: usize = max_ticks;
        while left > 0 && self.halted_at.is_none() && self.agents.len() > 0
            invariant
                self.wf(),
                self.terrain@ == old(self).terrain@,
                run_for(self.terrain@, self@, left as nat) == run_for(
                    old(self).terrain@,
                    old(self)@,
                    max_ticks as nat,
                ),
            decreases left,
        {
            self.move_guard();
            left -= 1;
        }
        self.outcome()
    }
}

/// The matrix `m` with an obstacle in the cell `at`.
pub open spec fn with_obstacle(m: Seq<Seq<char>>, at: Coord) -> Seq<Seq<char>> {
    m.update(at.row as int, m[at.row as int].update(at.col as int, '#'))
}

/// The cells that agents leave within `limit` ticks on `m`.
pub open spec fn patrolled(m: Seq<Seq<char>>, limit: nat) -> Set<Coord> {
    run_for(m, initial_state(m), limit).visited
}

/// Whether a simulation on `m` halts in a loop within `limit` ticks.
pub open spec fn loops_within(m: Seq<Seq<char>>, limit: nat) -> bool {
    run_for(m, initial_state(m), limit).halted_at is Some
}

/// The patrolled cells in which one more obstacle makes the simulation halt in a loop.
pub open spec fn loop_placements(m: Seq<Seq<char>>, limit: nat) -> Set<Coord> {
    Set::new(|p: Coord| patrolled(m, limit).contains(p) && loops_within(with_obstacle(m, p), limit))
}

/// Counts the cells among those patrolled within `max_ticks` ticks in which
/// one more obstacle makes a fresh simulation halt in a loop within
/// `max_ticks` ticks. A grid with a cell that holds no known marker is refused
/// with `InvalidCharacter`.
pub fn count_loop_placements(origin: &Grid, max_ticks: usize) -> (r: Result<usize, GridError>)
    requires
        origin.wf(),
    ensures
        all_known(origin@) ==> r is Ok,
        r matches Ok(n) ==> all_known(origin@) && n == loop_placements(origin@, max_ticks as nat).len(),
        r matches Err(e) ==> e == GridError::InvalidCharacter && !all_known(origin@),
{
    let ghost m = origin@;
    let mut first = match PatrolSimulator::new(origin) {
        Ok(sim) => sim,
        Err(e) => {
            return Err(e);
        },
    };
    first.run(max_ticks);
    let candidates = first.get_all_traversed_guard_positions();
    proof {
        first.lemma_wf_state();
        origin.lemma_wf_view();
        assert forall|k: int| 0 <= k < candidates@.len() implies in_bounds(
            m,
            (#[trigger] candidates@[k]).row as int,
            candidates@[k].col as int,
        ) by {
            assert(candidates@.to_set().contains(candidates@[k]));
            assert(first@.visited.contains(candidates@[k]));
        }
    }
    let mut count: usize = 0;
    let ghost mut found: Set<Coord> = Set::empty();
    let mut i: usize = 0;
    while i < candidates.len()
        invariant
            origin.wf(),
            m == origin@,
            all_known(m),
            is_rectangular(m),
            is_addressable(m),
            i <= candidates.len(),
            candidates@.no_duplicates(),
            candidates@.to_set() == patrolled(m, max_ticks as nat),
            forall|k: int|
                0 <= k < candidates@.len() ==> in_bounds(
                    m,
                    (#[trigger] candidates@[k]).row as int,
                    candidates@[k].col as int,
                ),
            found.finite(),
            count == found.len(),
            count <= i,
            found == Set::new(
                |p: Coord|
                    loops_within(with_obstacle(m, p), max_ticks as nat) && exists|k: int|
                        0 <= k < i && #[trigger] candidates@[k] == p,
            ),
        decreases candidates.len() - i,
    {
        let at = candidates[i];
        let mut board = origin.duplicate();
        let placed = board.set(at.row, at.col, '#');
        assert(board@ == with_obstacle(m, at));
        proof {
            assert forall|r: int, c: int| in_bounds(board@, r, c) implies is_known_marker(
                #[trigger] board@[r][c],
            ) by {
                assert(in_bounds(m, r, c));
                if r == at.row && c == at.col {
                } else {
                    assert(board@[r][c] == m[r][c]);
                }
            }
        }
        let halted = match PatrolSimulator::new(&board) {
            Ok(mut trial) => {
                let outcome = trial.run(max_ticks);
                match outcome {
                    Outcome::LoopDetected(_) => true,
                    _ => false,
                }
            },
            Err(_) => false,
        };
        assert(halted == loops_within(with_obstacle(m, at), max_ticks as nat));
        let ghost found_before = found;
        if halted {
            count += 1;
            proof {
                found = found.insert(at);
                assert(!found_before.contains(at)) by {
                    if found_before.contains(at) {
                        let k = choose|k: int| 0 <= k < i && #[trigger] candidates@[k] == at;
                        assert(candidates@[k] == candidates@[i as int]);
                    }
                }
            }
        }
        i += 1;
        assert(found =~= Set::new(
            |p: Coord|
                loops_within(with_obstacle(m, p), max_ticks as nat) && exists|k: int|
                    0 <= k < i && #[trigger] candidates@[k] == p,
        )) by {
            assert forall|p: Coord|
                found.contains(p) <==> (loops_within(with_obstacle(m, p), max_ticks as nat) && exists|
                    k: int,
                |
                    0 <= k < i && #[trigger] candidates@[k] == p) by {
                if found_before.contains(p) {
                    let k = choose|k: int| 0 <= k < i - 1 && #[trigger] candidates@[k] == p;
                    assert(0 <= k < i && candidates@[k] == p);
                }
                if p == at {
                    assert(candidates@[i - 1] == p);
                }
                if loops_within(with_obstacle(m, p), max_ticks as nat) && exists|k: int|
                    0 <= k < i && #[trigger] candidates@[k] == p {
                    let k = choose|k: int| 0 <= k < i && #[trigger] candidates@[k] == p;
                    if k < i - 1 {
                        assert(found_before.contains(p));
                    }
                }
            }
        }
    }
    proof {
        assert(found =~= loop_placements(m, max_ticks as nat)) by {
            assert forall|p: Coord| found.contains(p) <==> loop_placements(m, max_ticks as nat).contains(
                p,
            ) by {
                if found.contains(p) {
                    let k = choose|k: int| 0 <= k < i && #[trigger] candidates@[k] == p;
                    assert(candidates@.contains(p));
                    assert(candidates@.to_set().contains(p));
                }
                if loop_placements(m, max_ticks as nat).contains(p) {
                    assert(candidates@.to_set().contains(p));
                    assert(candidates@.contains(p));
                    let k = choose|k: int| 0 <= k < candidates@.len() && candidates@[k] == p;
                    assert(0 <= k < i && candidates@[k] == p);
                }
            }
        }
    }
    Ok(count)
}

} // verus!
