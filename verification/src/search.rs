//! The search driver: the step/iterate loop of the A* search, and path
//! reconstruction from parent links.
//!
//! Each step pops the best-ranked cell from the open set, and either
//! finishes (goal popped, open set empty, or iteration ceiling hit) or
//! expands the popped cell's passable neighbours, relaxing their costs.
//! The whole transition of one step is written out as the specification
//! function [`spec_step_model`]; the executable step is proved to realise
//! it exactly, which makes the search deterministic by construction.

use vstd::prelude::*;

use crate::frontier::{
    cell_g, lemma_first_with_id, lemma_scan_from_range, spec_contains_id, spec_first_with_id,
    spec_scan_best, OpenSet,
};
use crate::grid::{
    lemma_coord_unique, lemma_neighbors_ok, lemma_rc_index, spec_cell_wf_at, spec_cells_wf,
    spec_neighbors_at, spec_search_ready, Cell, CellKind, Grid, SearchError,
};
use crate::score::{heuristic_sq, spec_hsq};
use vstd::set_lib::{lemma_int_range, lemma_len_subset, set_int_range};

verus! {

/// Where the search stands.
#[derive(Clone, Copy, Debug, PartialEq, Eq, Structural)]
pub enum Status {
    /// More steps may be taken.
    Running,
    /// The goal cell was popped from the open set.
    GoalReached,
    /// The open set ran empty: the goal is unreachable.
    Exhausted,
    /// The iteration ceiling was hit before any other outcome.
    Aborted,
}

/// What one step of the search reports.
#[derive(Debug)]
pub enum StepResult {
    /// The search expanded a cell and goes on.
    Running,
    /// The goal was reached; carries the path from the goal back to the
    /// start, both included.
    GoalReached(Vec<Cell>),
    /// The open set ran empty: no path exists.
    Exhausted,
    /// The iteration ceiling was hit: the search gives up undecided.
    Aborted,
}

/// Ghost image of a whole search state.
#[verifier::ext_equal]
pub ghost struct SearchModel {
    /// Grid row count.
    pub rows: usize,
    /// Grid column count.
    pub cols: usize,
    /// The grid cells, row-major.
    pub cells: Seq<Cell>,
    /// The open set members, in insertion order.
    pub open: Seq<Cell>,
    /// Ids of expanded cells, in expansion order.
    pub closed: Seq<usize>,
    /// Id of the start cell.
    pub start_id: usize,
    /// Id of the goal cell.
    pub goal_id: usize,
    /// Number of steps taken so far.
    pub steps: u64,
    /// The iteration ceiling.
    pub max_iters: u64,
    /// Where the search stands.
    pub status: Status,
}

/// A* search state over one grid.
pub struct Search {
    /// The grid, mutated in place as the search progresses.
    pub grid: Grid,
    /// The frontier of discovered, unexpanded cells.
    pub open: OpenSet,
    /// Ids of expanded cells, in expansion order.
    pub closed: Vec<usize>,
    /// Id of the start cell.
    pub start_id: usize,
    /// Id of the goal cell.
    pub goal_id: usize,
    /// Number of steps taken so far.
    pub steps: u64,
    /// The iteration ceiling.
    pub max_iters: u64,
    /// Where the search stands.
    pub status: Status,
}

impl View for Search {
    type V = SearchModel;

    open spec fn view(&self) -> SearchModel {
        SearchModel {
            rows: self.grid.rows,
            cols: self.grid.cols,
            cells: self.grid.cells@,
            open: self.open.items@,
            closed: self.closed@,
            start_id: self.start_id,
            goal_id: self.goal_id,
            steps: self.steps,
            max_iters: self.max_iters,
            status: self.status,
        }
    }
}

/// A parent link of `c` (a grid cell or an open-set snapshot) is sound:
/// it points at an in-range cell whose cost is strictly smaller, exactly
/// one Moore step away.  Strictly decreasing cost along parent links rules
/// out cycles, so every parent chain reaches a root.
pub open spec fn spec_parent_ok(cells: Seq<Cell>, c: Cell) -> bool {
    c.parent_id is Some ==> {
        let p = c.parent_id.unwrap() as int;
        &&& 0 <= p < cells.len()
        &&& c.g is Some
        &&& cells[p].g is Some
        &&& cells[p].g.unwrap() < c.g.unwrap()
        &&& -1 <= c.row - cells[p].row <= 1
        &&& -1 <= c.col - cells[p].col <= 1
        &&& !(c.row == cells[p].row && c.col == cells[p].col)
    }
}

/// An open-set snapshot agrees with the cell array on the immutable
/// fields, is discovered with cost at most `bound`, and never trails
/// behind the grid: the grid's cost at its id is at most the snapshot's.
pub open spec fn spec_snapshot_ok(cells: Seq<Cell>, bound: u64, s: Cell) -> bool {
    &&& s.id < cells.len()
    &&& s.g is Some
    &&& s.g.unwrap() <= bound
    &&& s.hsq <= crate::MAX_HSQ
    &&& s.row == cells[s.id as int].row
    &&& s.col == cells[s.id as int].col
    &&& s.is_start == cells[s.id as int].is_start
    &&& cells[s.id as int].g is Some
    &&& cells[s.id as int].g.unwrap() <= s.g.unwrap()
    &&& (!s.is_start ==> s.parent_id is Some)
    &&& spec_parent_ok(cells, s)
}

/// The cell-array part of the search invariant: well-formed shape, the
/// start cell pinned at cost zero with no parent and the only `is_start`
/// flag, every discovered cost at most `bound` with a bounded heuristic,
/// and every parent link sound.
pub open spec fn spec_cells_inv(
    rows: usize,
    cols: usize,
    cells: Seq<Cell>,
    start_id: usize,
    bound: u64,
) -> bool {
    &&& spec_cells_wf(rows as int, cols as int, cells)
    &&& start_id < cells.len()
    &&& forall|i: int|
        0 <= i < cells.len() ==> ((#[trigger] cells[i]).is_start <==> i == start_id)
    &&& cells[start_id as int].g == Some(0u64)
    &&& cells[start_id as int].parent_id is None
    &&& forall|i: int|
        0 <= i < cells.len() && (#[trigger] cells[i]).g is Some ==> cells[i].g.unwrap() <= bound
            && cells[i].hsq <= crate::MAX_HSQ
    &&& forall|i: int|
        0 <= i < cells.len() && (#[trigger] cells[i]).g is Some && !cells[i].is_start
            ==> cells[i].parent_id is Some
    &&& forall|i: int| 0 <= i < cells.len() ==> spec_parent_ok(cells, #[trigger] cells[i])
}

/// The search invariant, established at seeding and preserved by every
/// step.
pub open spec fn spec_inv(m: SearchModel) -> bool {
    &&& spec_cells_inv(m.rows, m.cols, m.cells, m.start_id, m.steps)
    &&& m.goal_id < m.cells.len()
    &&& m.start_id != m.goal_id
    &&& m.steps <= m.max_iters
    &&& m.max_iters <= crate::MAX_ITERS
    &&& forall|i: int, j: int|
        0 <= i < j < m.open.len() ==> (#[trigger] m.open[i]).id != (#[trigger] m.open[j]).id
    &&& forall|j: int| 0 <= j < m.open.len() ==> spec_snapshot_ok(m.cells, m.steps, #[trigger] m.open[j])
}

/// The state a search starts from: the start cell scored with `g = 0` and
/// its heuristic, both in the grid and as the single open-set member.
pub open spec fn spec_init_model(
    grid: Grid,
    start: (usize, usize),
    goal: (usize, usize),
    max_iters: u64,
) -> SearchModel {
    let sid = start.0 as int * grid.cols as int + start.1 as int;
    let gid = goal.0 as int * grid.cols as int + goal.1 as int;
    let scell = Cell {
        g: Some(0u64),
        hsq: spec_hsq(start.0 as int, start.1 as int, goal.0 as int, goal.1 as int) as u64,
        ..grid.cells@[sid]
    };
    SearchModel {
        rows: grid.rows,
        cols: grid.cols,
        cells: grid.cells@.update(sid, scell),
        open: seq![scell],
        closed: Seq::empty(),
        start_id: sid as usize,
        goal_id: gid as usize,
        steps: 0u64,
        max_iters,
        status: Status::Running,
    }
}

impl Search {
    /// Seeds a search on a freshly set up grid: the start cell is scored
    /// (`g = 0`, heuristic to the goal) and becomes the sole open-set
    /// member.
    pub fn new(grid: Grid, start: (usize, usize), goal: (usize, usize), max_iters: u64) -> (s:
        Search)
        requires
            spec_search_ready(grid, start, goal),
            max_iters <= crate::MAX_ITERS,
        ensures
            s@ == spec_init_model(grid, start, goal, max_iters),
            spec_inv(s@),
            s@.status is Running,
    {
        let cols = grid.cols;
        let l = grid.cells.len();
        proof {
            lemma_rc_index(grid.rows as int, cols as int, start.0 as int, start.1 as int);
            lemma_rc_index(grid.rows as int, cols as int, goal.0 as int, goal.1 as int);
        }
        let sid = start.0 * cols + start.1;
        let gid = goal.0 * cols + goal.1;
        proof {
            if sid == gid {
                lemma_coord_unique(
                    cols as int,
                    start.0 as int,
                    start.1 as int,
                    goal.0 as int,
                    goal.1 as int,
                );
            }
        }
        let h = heuristic_sq(start, goal);
        let mut grid = grid;
        let ghost grid0 = grid;
        let scell = Cell { g: Some(0), hsq: h, ..grid.cells[sid] };
        grid.cells.set(sid, scell);
        let mut open = OpenSet::new();
        open.push(scell);
        let s = Search {
            grid,
            open,
            closed: Vec::new(),
            start_id: sid,
            goal_id: gid,
            steps: 0,
            max_iters,
            status: Status::Running,
        };
        proof {
            let m = s@;
            assert(spec_cell_wf_at(grid0.rows as int, grid0.cols as int, grid0.cells@, sid as int));
            assert forall|i: int|
                0 <= i < m.cells.len() implies spec_cell_wf_at(
                m.rows as int,
                m.cols as int,
                m.cells,
                i,
            ) by {
                assert(spec_cell_wf_at(grid0.rows as int, grid0.cols as int, grid0.cells@, i));
            }
            assert forall|i: int| 0 <= i < m.cells.len() implies ((#[trigger] m.cells[i]).is_start
                <==> i == m.start_id) by {
                assert(spec_cell_wf_at(grid0.rows as int, grid0.cols as int, grid0.cells@, i));
                let cl = grid0.cells@[i];
                if i == sid {
                    lemma_coord_unique(
                        cols as int,
                        cl.row as int,
                        cl.col as int,
                        start.0 as int,
                        start.1 as int,
                    );
                } else {
                    if (cl.row, cl.col) == start {
                        assert(i == cl.row * grid0.cols + cl.col);
                    }
                }
            }
            assert(m =~= spec_init_model(grid0, start, goal, max_iters));
        }
        s
    }
}

/// The parent chain read from `cur` down to the start cell: `cur` first,
/// the start cell last.  `None` when a link is missing or out of range,
/// or when the chain does not reach the start within `fuel` links.
pub open spec fn spec_walk(cells: Seq<Cell>, cur: Cell, fuel: nat) -> Option<Seq<Cell>>
    decreases fuel,
{
    if cur.is_start {
        Some(seq![cur])
    } else if fuel == 0 {
        None
    } else {
        match cur.parent_id {
            None => None,
            Some(pid) => if pid < cells.len() {
                match spec_walk(cells, cells[pid as int], (fuel - 1) as nat) {
                    None => None,
                    Some(rest) => Some(seq![cur] + rest),
                }
            } else {
                None
            },
        }
    }
}

/// Walks the parent links from `from` back to the start cell, collecting
/// the cells in order (`from` first, start cell last).  Fails with
/// `CorruptParentChain` when a link is missing or out of range, or when
/// the chain does not reach a start cell within the grid's cell count.
pub fn reconstruct_path(grid: &Grid, from: Cell) -> (res: Result<Vec<Cell>, SearchError>)
    ensures
        match res {
            Ok(p) => Some(p@) == spec_walk(grid.cells@, from, grid.cells@.len() as nat),
            Err(e) => {
                &&& e == SearchError::CorruptParentChain
                &&& spec_walk(grid.cells@, from, grid.cells@.len() as nat) is None
            },
        },
{
    let ghost full_fuel = grid.cells@.len() as nat;
    let mut path: Vec<Cell> = Vec::new();
    path.push(from);
    let mut cur = from;
    let mut fuel = grid.cells.len();
    proof {
        match spec_walk(grid.cells@, from, full_fuel) {
            Some(rest) => {
                assert(path@.drop_last() + rest =~= rest);
            },
            None => {},
        }
    }
    while !cur.is_start
        invariant
            full_fuel == grid.cells@.len() as nat,
            path@.len() >= 1,
            path@.last() == cur,
            fuel <= grid.cells@.len(),
            ({
                match spec_walk(grid.cells@, cur, fuel as nat) {
                    Some(rest) => spec_walk(grid.cells@, from, full_fuel) == Some(
                        path@.drop_last() + rest,
                    ),
                    None => spec_walk(grid.cells@, from, full_fuel) is None,
                }
            }),
        decreases fuel,
    {
        if fuel == 0 {
            proof {
                assert(spec_walk(grid.cells@, cur, fuel as nat) is None);
            }
            return Err(SearchError::CorruptParentChain);
        }
        match cur.parent_id {
            None => {
                proof {
                    assert(spec_walk(grid.cells@, cur, fuel as nat) is None);
                }
                return Err(SearchError::CorruptParentChain);
            },
            Some(pid) => {
                if pid >= grid.cells.len() {
                    proof {
                        assert(spec_walk(grid.cells@, cur, fuel as nat) is None);
                    }
                    return Err(SearchError::CorruptParentChain);
                }
                let nxt = grid.cells[pid];
                let ghost opath = path@;
                path.push(nxt);
                proof {
                    assert(path@.drop_last() =~= opath);
                    assert(opath.drop_last() + seq![cur] =~= opath);
                    match spec_walk(grid.cells@, nxt, (fuel - 1) as nat) {
                        Some(rest) => {
                            assert(spec_walk(grid.cells@, cur, fuel as nat) == Some(
                                seq![cur] + rest,
                            ));
                            assert(opath.drop_last() + (seq![cur] + rest) =~= opath + rest);
                        },
                        None => {
                            assert(spec_walk(grid.cells@, cur, fuel as nat) is None);
                        },
                    }
                }
                cur = nxt;
                fuel = fuel - 1;
            },
        }
    }
    proof {
        assert(spec_walk(grid.cells@, cur, fuel as nat) == Some(seq![cur]));
        assert(path@.drop_last() + seq![cur] =~= path@);
    }
    Ok(path)
}

/// Shape of every successfully reconstructed path: it starts at the cell
/// it was reconstructed from, ends at the start cell, and every
/// consecutive pair of cells is 8-adjacent (one Moore step apart).  After
/// reversal the path therefore runs from the start cell to the goal cell
/// the walk began at.
#[verifier::rlimit(100)]
pub proof fn lemma_walk_path_shape(cells: Seq<Cell>, from: Cell, fuel: nat)
    requires
        forall|i: int| 0 <= i < cells.len() ==> spec_parent_ok(cells, #[trigger] cells[i]),
        spec_parent_ok(cells, from),
    ensures
        match spec_walk(cells, from, fuel) {
            None => true,
            Some(p) => {
                &&& p.len() >= 1
                &&& p[0] == from
                &&& p.last().is_start
                &&& forall|i: int|
                    0 <= i < p.len() - 1 ==> {
                        let a = #[trigger] p[i];
                        let b = p[i + 1];
                        &&& -1 <= a.row - b.row <= 1
                        &&& -1 <= a.col - b.col <= 1
                        &&& !(a.row == b.row && a.col == b.col)
                    }
            },
        },
    decreases fuel,
{
    if !from.is_start && fuel > 0 && from.parent_id is Some {
        let pid = from.parent_id.unwrap();
        if pid < cells.len() {
            lemma_walk_path_shape(cells, cells[pid as int], (fuel - 1) as nat);
            match spec_walk(cells, cells[pid as int], (fuel - 1) as nat) {
                None => {},
                Some(rest) => {
                    let p = seq![from] + rest;
                    assert(p[0] == from);
                    assert(p.last() == rest.last());
                    assert forall|i: int| 0 <= i < p.len() - 1 implies {
                        let a = #[trigger] p[i];
                        let b = p[i + 1];
                        &&& -1 <= a.row - b.row <= 1
                        &&& -1 <= a.col - b.col <= 1
                        &&& !(a.row == b.row && a.col == b.col)
                    } by {
                        if i == 0 {
                            assert(p[0] == from && p[1] == rest[0]);
                            assert(rest[0] == cells[pid as int]);
                        } else {
                            assert(p[i] == rest[i - 1] && p[i + 1] == rest[i]);
                        }
                    }
                },
            }
        }
    }
}


/// Two cells that agree on everything but possibly the kind.
pub open spec fn spec_same_but_kind(a: Cell, b: Cell) -> bool {
    &&& a.id == b.id
    &&& a.row == b.row
    &&& a.col == b.col
    &&& a.parent_id == b.parent_id
    &&& a.g == b.g
    &&& a.hsq == b.hsq
    &&& a.is_start == b.is_start
}

/// Relaxation of a single neighbour coordinate `nbr` of the expanded cell
/// `cur`: when the step through `cur` improves on the neighbour's cost (or
/// the neighbour is undiscovered), the neighbour is rescored, its parent
/// link is pointed at `cur`, and it enters the open set unless its id is
/// already present.
pub open spec fn spec_relax_one(
    cols: usize,
    st: (Seq<Cell>, Seq<Cell>),
    cur: Cell,
    goal: (usize, usize),
    nbr: (usize, usize),
) -> (Seq<Cell>, Seq<Cell>) {
    let cells = st.0;
    let open = st.1;
    let nid = nbr.0 as int * cols as int + nbr.1 as int;
    let ncell_old = cells[nid];
    let tg = (cur.g.unwrap() + 1) as u64;
    if ncell_old.g is None || tg < ncell_old.g.unwrap() {
        let ncell = Cell {
            g: Some(tg),
            hsq: spec_hsq(nbr.0 as int, nbr.1 as int, goal.0 as int, goal.1 as int) as u64,
            parent_id: Some(cur.id),
            ..ncell_old
        };
        let cells2 = cells.update(nid, ncell);
        let open2 = if spec_contains_id(open, ncell.id) {
            open
        } else {
            open.push(ncell)
        };
        (cells2, open2)
    } else {
        (cells, open)
    }
}

/// Relaxation of the first `k` entries of the neighbour list, in order.
pub open spec fn spec_relax_upto(
    cols: usize,
    st: (Seq<Cell>, Seq<Cell>),
    cur: Cell,
    goal: (usize, usize),
    nbrs: Seq<(usize, usize)>,
    k: int,
) -> (Seq<Cell>, Seq<Cell>)
    decreases k,
{
    if k <= 0 {
        st
    } else {
        spec_relax_one(cols, spec_relax_upto(cols, st, cur, goal, nbrs, k - 1), cur, goal, nbrs[k - 1])
    }
}

/// Marks the first `k` path members in the cell array, in path order.
pub open spec fn spec_mark_path(cells: Seq<Cell>, path: Seq<Cell>, k: int) -> Seq<Cell>
    decreases k,
{
    if k <= 0 {
        cells
    } else {
        let prev = spec_mark_path(cells, path, k - 1);
        let p = path[k - 1];
        if p.id < prev.len() {
            prev.update(p.id as int, Cell { kind: CellKind::PathMember, ..prev[p.id as int] })
        } else {
            prev
        }
    }
}

/// The complete transition of one search step.
///
/// In order: a terminal state is left alone; hitting the iteration
/// ceiling aborts; an empty open set exhausts the search; popping the
/// goal reconstructs and marks the path (an unreachable reconstruction
/// failure leaves the state untouched); otherwise the popped cell is
/// recorded as closed, marked explored (unless it is the start or the
/// goal), and its passable neighbours are relaxed.
pub open spec fn spec_step_model(m: SearchModel) -> SearchModel {
    if !(m.status is Running) {
        m
    } else if m.steps >= m.max_iters {
        SearchModel { status: Status::Aborted, ..m }
    } else if m.open.len() == 0 {
        SearchModel { status: Status::Exhausted, steps: (m.steps + 1) as u64, ..m }
    } else {
        let bi = spec_scan_best(m.open);
        let cur = m.open[bi];
        if cur.id == m.goal_id {
            match spec_walk(m.cells, cur, m.cells.len() as nat) {
                None => m,
                Some(path) => SearchModel {
                    cells: spec_mark_path(m.cells, path, path.len() as int),
                    status: Status::GoalReached,
                    steps: (m.steps + 1) as u64,
                    ..m
                },
            }
        } else {
            spec_expand_model(m, cur)
        }
    }
}

/// The expansion part of a step: the popped cell `cur` leaves the open
/// set, joins the closed set, is marked explored (unless it is the start
/// or the goal cell), and its passable neighbours are relaxed.
pub open spec fn spec_expand_model(m: SearchModel, cur: Cell) -> SearchModel {
    let open1 = m.open.remove(spec_first_with_id(m.open, cur.id));
    let closed1 = m.closed.push(cur.id);
    let cells1 = if cur.id != m.start_id && cur.id != m.goal_id {
        m.cells.update(cur.id as int, Cell { kind: CellKind::Explored, ..m.cells[cur.id as int] })
    } else {
        m.cells
    };
    let goal = (m.cells[m.goal_id as int].row, m.cells[m.goal_id as int].col);
    let nbrs = spec_neighbors_at(
        m.rows as int,
        m.cols as int,
        cells1,
        cur.row as int,
        cur.col as int,
    );
    let st = spec_relax_upto(m.cols, (cells1, open1), cur, goal, nbrs, nbrs.len() as int);
    SearchModel { cells: st.0, open: st.1, closed: closed1, steps: (m.steps + 1) as u64, ..m }
}

impl Search {
    /// Takes one step of the search, realising [`spec_step_model`]
    /// exactly.  A corrupted parent graph is proved unreachable under the
    /// search invariant, so the step never fails: `res is Ok` always.
    #[verifier::rlimit(100)]
    #[verifier::spinoff_prover]
    pub fn step(&mut self) -> (res: Result<StepResult, SearchError>)
        requires
            spec_inv(old(self)@),
            old(self)@.status is Running,
        ensures
            spec_inv(final(self)@),
            final(self)@ == spec_step_model(old(self)@),
            res is Ok,
            match res {
                Ok(r) => {
                    &&& ((r is Running) <==> (final(self)@.status is Running))
                    &&& ((r is Exhausted) <==> (final(self)@.status is Exhausted))
                    &&& ((r is Aborted) <==> (final(self)@.status is Aborted))
                    &&& ((r is GoalReached) <==> (final(self)@.status is GoalReached))
                    &&& (r is Running ==> final(self)@.steps == old(self)@.steps + 1)
                    &&& (r matches StepResult::GoalReached(p) ==> Some(p@) == spec_walk(
                        old(self)@.cells,
                        old(self)@.open[spec_scan_best(old(self)@.open)],
                        old(self)@.cells.len() as nat,
                    ))
                },
                Err(e) => {
                    &&& e == SearchError::CorruptParentChain
                    &&& final(self)@ == old(self)@
                },
            },
    {
        let ghost m0 = old(self)@;
        if self.steps >= self.max_iters {
            self.status = Status::Aborted;
            proof {
                assert(self@ =~= spec_step_model(m0));
            }
            return Ok(StepResult::Aborted);
        }
        if self.open.len() == 0 {
            self.status = Status::Exhausted;
            self.steps = self.steps + 1;
            proof {
                assert(self@ =~= spec_step_model(m0));
            }
            return Ok(StepResult::Exhausted);
        }
        let bi = self.open.find_best();
        let cur = self.open.get(bi);
        proof {
            assert(spec_snapshot_ok(m0.cells, m0.steps, m0.open[bi as int]));
        }
        if cur.id == self.goal_id {
            match reconstruct_path(&self.grid, cur) {
                Err(e) => {
                    proof {
                        lemma_reconstruct_in_reach(m0);
                        assert(false);
                    }
                    return Err(e);
                },
                Ok(path) => {
                    let ghost cells0 = self.grid.cells@;
                    let n = path.len();
                    let mut k: usize = 0;
                    while k < n
                        invariant
                            n == path@.len(),
                            k <= n,
                            self.grid.rows == m0.rows,
                            self.grid.cols == m0.cols,
                            self.open.items@ == m0.open,
                            self.closed@ == m0.closed,
                            self.start_id == m0.start_id,
                            self.goal_id == m0.goal_id,
                            self.steps == m0.steps,
                            self.max_iters == m0.max_iters,
                            self.status == m0.status,
                            cells0 == m0.cells,
                            self.grid.cells@.len() == cells0.len(),
                            self.grid.cells@ == spec_mark_path(cells0, path@, k as int),
                            forall|i: int|
                                0 <= i < cells0.len() ==> spec_same_but_kind(
                                    #[trigger] self.grid.cells@[i],
                                    cells0[i],
                                ),
                        decreases n - k,
                    {
                        let p = path[k];
                        if p.id < self.grid.cells.len() {
                            let cl = self.grid.cells[p.id];
                            self.grid.cells.set(p.id, Cell { kind: CellKind::PathMember, ..cl });
                        }
                        k = k + 1;
                    }
                    self.status = Status::GoalReached;
                    self.steps = self.steps + 1;
                    proof {
                        let mn = self@;
                        assert forall|i: int|
                            0 <= i < mn.cells.len() implies spec_cell_wf_at(
                            mn.rows as int,
                            mn.cols as int,
                            mn.cells,
                            i,
                        ) by {
                            assert(spec_cell_wf_at(m0.rows as int, m0.cols as int, m0.cells, i));
                            assert(spec_same_but_kind(mn.cells[i], m0.cells[i]));
                        }
                        assert forall|i: int|
                            0 <= i < mn.cells.len() implies spec_parent_ok(
                            mn.cells,
                            #[trigger] mn.cells[i],
                        ) by {
                            assert(spec_parent_ok(m0.cells, m0.cells[i]));
                            assert(spec_same_but_kind(mn.cells[i], m0.cells[i]));
                            if m0.cells[i].parent_id is Some {
                                let pp = m0.cells[i].parent_id.unwrap() as int;
                                assert(spec_same_but_kind(mn.cells[pp], m0.cells[pp]));
                            }
                        }
                        assert forall|j: int|
                            0 <= j < mn.open.len() implies spec_snapshot_ok(
                            mn.cells,
                            mn.steps,
                            #[trigger] mn.open[j],
                        ) by {
                            assert(spec_snapshot_ok(m0.cells, m0.steps, m0.open[j]));
                            let sid = m0.open[j].id as int;
                            assert(spec_same_but_kind(mn.cells[sid], m0.cells[sid]));
                            if m0.open[j].parent_id is Some {
                                let pp = m0.open[j].parent_id.unwrap() as int;
                                assert(spec_same_but_kind(mn.cells[pp], m0.cells[pp]));
                            }
                        }
                        assert(self@ =~= spec_step_model(m0));
                    }
                    return Ok(StepResult::GoalReached(path));
                },
            }
        }
        // Expand: remove the popped cell, record it closed, mark it
        // explored (never the start or goal cell), relax its neighbours.
        proof {
            assert(spec_contains_id(m0.open, cur.id)) by {
                assert(m0.open[bi as int].id == cur.id);
            }
        }
        self.expand_current(cur);
        proof {
            assert(self@ =~= spec_step_model(m0));
        }
        Ok(StepResult::Running)
    }

    /// Retires the popped cell `cur`: removes it from the open set,
    /// records it closed, and marks it explored unless it is the start
    /// or the goal cell.
    #[verifier::rlimit(100)]
    #[verifier::spinoff_prover]
    fn retire_current(&mut self, cur: Cell)
        requires
            spec_inv(old(self)@),
            spec_contains_id(old(self)@.open, cur.id),
            spec_snapshot_ok(old(self)@.cells, old(self)@.steps, cur),
            cur.id != old(self)@.goal_id,
        ensures
            ({
                let m0 = old(self)@;
                let cells1 = if cur.id != m0.start_id && cur.id != m0.goal_id {
                    m0.cells.update(
                        cur.id as int,
                        (Cell { kind: CellKind::Explored, ..m0.cells[cur.id as int] }),
                    )
                } else {
                    m0.cells
                };
                let open1 = m0.open.remove(spec_first_with_id(m0.open, cur.id));
                &&& final(self)@.cells == cells1
                &&& final(self)@.open == open1
                &&& final(self)@.closed == m0.closed.push(cur.id)
                &&& final(self)@.rows == m0.rows
                &&& final(self)@.cols == m0.cols
                &&& final(self)@.start_id == m0.start_id
                &&& final(self)@.goal_id == m0.goal_id
                &&& final(self)@.steps == m0.steps
                &&& final(self)@.max_iters == m0.max_iters
                &&& final(self)@.status == m0.status
                &&& spec_cells_inv(m0.rows, m0.cols, cells1, m0.start_id, m0.steps)
                &&& forall|i: int|
                    0 <= i < cells1.len() ==> spec_same_but_kind(
                        #[trigger] cells1[i],
                        m0.cells[i],
                    )
                &&& forall|i: int, j: int|
                    0 <= i < j < open1.len() ==> (#[trigger] open1[i]).id != (
                    #[trigger] open1[j]).id
                &&& forall|j: int|
                    0 <= j < open1.len() ==> spec_snapshot_ok(
                        cells1,
                        m0.steps,
                        #[trigger] open1[j],
                    )
            }),
    {
        let ghost m0 = old(self)@;
        self.open.remove_id(cur.id);
        self.closed.push(cur.id);
        proof {
            lemma_first_with_id(m0.open, cur.id);
        }
        if cur.id != self.start_id && cur.id != self.goal_id {
            let l = self.grid.cells.len();
            let cl = self.grid.cells[cur.id];
            self.grid.cells.set(cur.id, Cell { kind: CellKind::Explored, ..cl });
        }
        proof {
            let cells1 = self.grid.cells@;
            let open1 = self.open.items@;
            assert forall|i: int|
                0 <= i < cells1.len() implies spec_same_but_kind(
                #[trigger] cells1[i],
                m0.cells[i],
            ) by {}
            assert forall|j: int|
                0 <= j < open1.len() implies spec_snapshot_ok(
                m0.cells,
                m0.steps,
                #[trigger] open1[j],
            ) by {
                let r = spec_first_with_id(m0.open, cur.id);
                assert(open1[j] == (if j < r {
                    m0.open[j]
                } else {
                    m0.open[j + 1]
                }));
                if j < r {
                    assert(spec_snapshot_ok(m0.cells, m0.steps, m0.open[j]));
                } else {
                    assert(spec_snapshot_ok(m0.cells, m0.steps, m0.open[j + 1]));
                }
            }
            assert forall|i: int|
                0 <= i < cells1.len() implies spec_cell_wf_at(
                m0.rows as int,
                m0.cols as int,
                cells1,
                i,
            ) by {
                assert(spec_cell_wf_at(m0.rows as int, m0.cols as int, m0.cells, i));
            }
            assert forall|i: int|
                0 <= i < cells1.len() implies spec_parent_ok(cells1, #[trigger] cells1[i]) by {
                assert(spec_parent_ok(m0.cells, m0.cells[i]));
                assert(spec_same_but_kind(cells1[i], m0.cells[i]));
                if m0.cells[i].parent_id is Some {
                    let pp = m0.cells[i].parent_id.unwrap() as int;
                    assert(spec_same_but_kind(cells1[pp], m0.cells[pp]));
                }
            }
            assert forall|j: int|
                0 <= j < open1.len() implies spec_snapshot_ok(
                cells1,
                m0.steps,
                #[trigger] open1[j],
            ) by {
                assert(spec_snapshot_ok(m0.cells, m0.steps, open1[j]));
                let sid = open1[j].id as int;
                assert(spec_same_but_kind(cells1[sid], m0.cells[sid]));
                if open1[j].parent_id is Some {
                    let pp = open1[j].parent_id.unwrap() as int;
                    assert(spec_same_but_kind(cells1[pp], m0.cells[pp]));
                }
            }
        }
    }

    /// Expands the popped cell `cur`: removes it from the open set,
    /// records it closed, marks it explored (never the start or the
    /// goal cell), relaxes its passable neighbours, and counts the
    /// step.
    #[verifier::rlimit(100)]
    #[verifier::spinoff_prover]
    fn expand_current(&mut self, cur: Cell)
        requires
            spec_inv(old(self)@),
            old(self)@.status is Running,
            old(self)@.steps < old(self)@.max_iters,
            spec_contains_id(old(self)@.open, cur.id),
            spec_snapshot_ok(old(self)@.cells, old(self)@.steps, cur),
            cur.id != old(self)@.goal_id,
        ensures
            spec_inv(final(self)@),
            final(self)@ == spec_expand_model(old(self)@, cur),
            final(self)@.status == old(self)@.status,
            final(self)@.steps == old(self)@.steps + 1,
    {
        let ghost m0 = old(self)@;
        self.retire_current(cur);
        let ghost cells1 = self.grid.cells@;
        let ghost open1 = self.open.items@;
        let l0 = self.grid.cells.len();
        proof {
            assert(spec_cell_wf_at(m0.rows as int, m0.cols as int, m0.cells, cur.id as int));
            assert(spec_cell_wf_at(m0.rows as int, m0.cols as int, cells1, m0.goal_id as int));
        }
        let gcell = self.grid.cells[self.goal_id];
        let gr = gcell.row;
        let gc = gcell.col;
        let nbrs = self.grid.neighbors(cur.row, cur.col);
        let tg = cell_g(&cur) + 1;
        proof {
            lemma_neighbors_ok(
                m0.rows as int,
                m0.cols as int,
                cells1,
                cur.row as int,
                cur.col as int,
                8,
            );
        }
        let nn = nbrs.len();
        let mut k: usize = 0;
        while k < nn
            invariant
                nn == nbrs@.len(),
                k <= nn,
                self.grid.rows == m0.rows,
                self.grid.cols == m0.cols,
                self.closed@ == m0.closed.push(cur.id),
                self.start_id == m0.start_id,
                self.goal_id == m0.goal_id,
                self.steps == m0.steps,
                self.max_iters == m0.max_iters,
                self.status == m0.status,
                m0.status is Running,
                m0.steps < m0.max_iters,
                m0.max_iters <= crate::MAX_ITERS,
                m0.start_id < cells1.len(),
                m0.goal_id < cells1.len(),
                m0.start_id != m0.goal_id,
                cur.g is Some,
                cur.g.unwrap() <= m0.steps,
                tg == cur.g.unwrap() + 1,
                cur.id < cells1.len(),
                gr == cells1[m0.goal_id as int].row,
                gc == cells1[m0.goal_id as int].col,
                gr < m0.rows,
                gc < m0.cols,
                nbrs@ == spec_neighbors_at(
                    m0.rows as int,
                    m0.cols as int,
                    cells1,
                    cur.row as int,
                    cur.col as int,
                ),
                forall|j: int|
                    0 <= j < nbrs@.len() ==> {
                        let p = #[trigger] nbrs@[j];
                        &&& p.0 < m0.rows
                        &&& p.1 < m0.cols
                        &&& -1 <= p.0 - cur.row <= 1
                        &&& -1 <= p.1 - cur.col <= 1
                        &&& !(p.0 == cur.row && p.1 == cur.col)
                    },
                (self.grid.cells@, self.open.items@) == spec_relax_upto(
                    m0.cols,
                    (cells1, open1),
                    cur,
                    (gr, gc),
                    nbrs@,
                    k as int,
                ),
                self.grid.cells@.len() == cells1.len(),
                spec_cells_inv(
                    m0.rows,
                    m0.cols,
                    self.grid.cells@,
                    m0.start_id,
                    (m0.steps + 1) as u64,
                ),
                self.grid.cells@[cur.id as int].g is Some,
                self.grid.cells@[cur.id as int].g.unwrap() <= cur.g.unwrap(),
                self.grid.cells@[cur.id as int].row == cur.row,
                self.grid.cells@[cur.id as int].col == cur.col,
                forall|i: int, j: int|
                    0 <= i < j < self.open.items@.len() ==> (#[trigger] self.open.items@[i]).id != (
                    #[trigger] self.open.items@[j]).id,
                forall|j: int|
                    0 <= j < self.open.items@.len() ==> spec_snapshot_ok(
                        self.grid.cells@,
                        (m0.steps + 1) as u64,
                        #[trigger] self.open.items@[j],
                    ),
            decreases nn - k,
        {
            let ghost cells_k = self.grid.cells@;
            let ghost open_k = self.open.items@;
            let (nr, nc) = nbrs[k];
            let l = self.grid.cells.len();
            proof {
                lemma_rc_index(m0.rows as int, m0.cols as int, nr as int, nc as int);
            }
            let nid = nr * self.grid.cols + nc;
            proof {
                assert(spec_cell_wf_at(m0.rows as int, m0.cols as int, cells_k, nid as int));
                if nid == cur.id {
                    lemma_coord_unique(
                        m0.cols as int,
                        cells_k[nid as int].row as int,
                        cells_k[nid as int].col as int,
                        nr as int,
                        nc as int,
                    );
                }
                lemma_coord_unique(
                    m0.cols as int,
                    cells_k[nid as int].row as int,
                    cells_k[nid as int].col as int,
                    nr as int,
                    nc as int,
                );
            }
            let ncell_old = self.grid.cells[nid];
            let relax = match ncell_old.g {
                None => true,
                Some(gv) => tg < gv,
            };
            if relax {
                let h = heuristic_sq((nr, nc), (gr, gc));
                let newcell = Cell { g: Some(tg), hsq: h, parent_id: Some(cur.id), ..ncell_old };
                self.grid.cells.set(nid, newcell);
                self.open.push(newcell);
                proof {
                    let cells_n = self.grid.cells@;
                    let open_n = self.open.items@;
                    assert forall|i: int|
                        0 <= i < cells_n.len() implies spec_cell_wf_at(
                        m0.rows as int,
                        m0.cols as int,
                        cells_n,
                        i,
                    ) by {
                        assert(spec_cell_wf_at(m0.rows as int, m0.cols as int, cells_k, i));
                    }
                    assert forall|i: int|
                        0 <= i < cells_n.len() implies spec_parent_ok(
                        cells_n,
                        #[trigger] cells_n[i],
                    ) by {
                        assert(spec_parent_ok(cells_k, cells_k[i]));
                        if i != nid && cells_k[i].parent_id is Some {
                            let pp = cells_k[i].parent_id.unwrap() as int;
                            assert(spec_parent_ok(cells_k, cells_k[pp]));
                        }
                    }
                    assert forall|j: int|
                        0 <= j < open_n.len() implies spec_snapshot_ok(
                        cells_n,
                        (m0.steps + 1) as u64,
                        #[trigger] open_n[j],
                    ) by {
                        if j < open_k.len() {
                            assert(open_n[j] == open_k[j]);
                            assert(spec_snapshot_ok(cells_k, (m0.steps + 1) as u64, open_k[j]));
                        } else {
                            assert(open_n[j] == newcell);
                        }
                    }
                    assert((self.grid.cells@, self.open.items@) == spec_relax_upto(
                        m0.cols,
                        (cells1, open1),
                        cur,
                        (gr, gc),
                        nbrs@,
                        k + 1,
                    ));
                }
            } else {
                proof {
                    assert((self.grid.cells@, self.open.items@) == spec_relax_upto(
                        m0.cols,
                        (cells1, open1),
                        cur,
                        (gr, gc),
                        nbrs@,
                        k + 1,
                    ));
                }
            }
            k = k + 1;
        }
        self.steps = self.steps + 1;
        proof {
            assert(self@ =~= spec_expand_model(m0, cur));
        }
    }
}

/// Any discovered cell's parent chain reaches the start cell before the
/// fuel runs out: each link leads to a strictly cheaper cell, so the
/// chain never revisits a cell, and `avoid` counts the distinct cells
/// already left behind.
pub proof fn lemma_chain_reaches_start(cells: Seq<Cell>, id: int, avoid: Set<int>, fuel: nat)
    requires
        forall|i: int| 0 <= i < cells.len() ==> spec_parent_ok(cells, #[trigger] cells[i]),
        forall|i: int|
            0 <= i < cells.len() && (#[trigger] cells[i]).g is Some && !cells[i].is_start
                ==> cells[i].parent_id is Some,
        0 <= id < cells.len(),
        cells[id].g is Some,
        avoid.finite(),
        forall|a: int|
            #[trigger] avoid.contains(a) ==> 0 <= a < cells.len() && cells[a].g is Some
                && cells[a].g.unwrap() > cells[id].g.unwrap(),
        fuel + avoid.len() + 1 >= cells.len(),
    ensures
        spec_walk(cells, cells[id], fuel) is Some,
    decreases fuel,
{
    let c = cells[id];
    if !c.is_start {
        assert(spec_parent_ok(cells, cells[id]));
        let p = c.parent_id.unwrap() as int;
        assert(!avoid.contains(id));
        let avoid2 = avoid.insert(id);
        assert(!avoid2.contains(p));
        let avoid3 = avoid2.insert(p);
        assert(avoid3.len() == avoid.len() + 2);
        lemma_int_range(0, cells.len() as int);
        assert(avoid3.subset_of(set_int_range(0, cells.len() as int)));
        lemma_len_subset(avoid3, set_int_range(0, cells.len() as int));
        assert(fuel >= 1);
        assert forall|a: int| #[trigger] avoid2.contains(a) implies 0 <= a < cells.len()
            && cells[a].g is Some && cells[a].g.unwrap() > cells[p].g.unwrap() by {}
        lemma_chain_reaches_start(cells, p, avoid2, (fuel - 1) as nat);
    }
}

/// Path reconstruction can never fail inside a search: whenever the
/// search pops the goal, the parent chain of the popped snapshot reaches
/// the start cell within the grid's cell count.
pub proof fn lemma_reconstruct_in_reach(m: SearchModel)
    requires
        spec_inv(m),
        m.open.len() > 0,
    ensures
        spec_walk(m.cells, m.open[spec_scan_best(m.open)], m.cells.len() as nat) is Some,
{
    lemma_scan_from_range(m.open, m.open.len() - 1, 0);
    let bi = spec_scan_best(m.open);
    let c = m.open[bi];
    assert(spec_snapshot_ok(m.cells, m.steps, m.open[bi]));
    if !c.is_start {
        assert(spec_parent_ok(m.cells, c));
        let p = c.parent_id.unwrap() as int;
        lemma_chain_reaches_start(m.cells, p, Set::empty(), (m.cells.len() - 1) as nat);
    }
}

/// Fuel that certainly outlasts a run: one step per remaining iteration,
/// plus the terminal step.
pub open spec fn spec_run_fuel(m: SearchModel) -> nat {
    (m.max_iters - m.steps + 1) as nat
}

/// Repeated application of the step transition, stopping at a terminal
/// state or when the fuel runs out.
pub open spec fn spec_run_model(m: SearchModel, n: nat) -> SearchModel
    decreases n,
{
    if n == 0 || !(m.status is Running) {
        m
    } else {
        spec_run_model(spec_step_model(m), (n - 1) as nat)
    }
}

/// Determinism of the search: two searches started from identical states
/// take identical steps and end in identical states, with the same path
/// markings and the same step count.  Together with [`Search::step`]'s
/// contract -- each executable step equals [`spec_step_model`] of the
/// state before it -- re-running the search on an unmodified grid yields
/// an identical path and step count.
pub proof fn lemma_search_deterministic(m1: SearchModel, m2: SearchModel, n: nat)
    requires
        m1 == m2,
    ensures
        spec_run_model(m1, n) == spec_run_model(m2, n),
{
}

impl Search {
    /// Runs the search to a terminal state, one step at a time.  The
    /// final state equals the repeated application of the step
    /// transition to the starting state.
    #[verifier::rlimit(100)]
    #[verifier::spinoff_prover]
    pub fn run(&mut self) -> (res: Result<StepResult, SearchError>)
        requires
            spec_inv(old(self)@),
            old(self)@.status is Running,
        ensures
            spec_inv(final(self)@),
            final(self)@ == spec_run_model(old(self)@, spec_run_fuel(old(self)@)),
            res is Ok,
            match res {
                Ok(r) => {
                    &&& !(final(self)@.status is Running)
                    &&& ((r is Exhausted) <==> (final(self)@.status is Exhausted))
                    &&& ((r is Aborted) <==> (final(self)@.status is Aborted))
                    &&& ((r is GoalReached) <==> (final(self)@.status is GoalReached))
                    &&& (r matches StepResult::GoalReached(p) ==> p@.len() >= 1 && p@[0].id
                        == final(self)@.goal_id && p@.last().is_start)
                },
                Err(e) => e == SearchError::CorruptParentChain,
            },
    {
        let ghost m0 = self@;
        loop
            invariant
                m0 == old(self)@,
                spec_inv(self@),
                self@.status is Running,
                self@.max_iters == m0.max_iters,
                self@.goal_id == m0.goal_id,
                spec_run_model(m0, spec_run_fuel(m0)) == spec_run_model(
                    self@,
                    spec_run_fuel(self@),
                ),
            decreases self@.max_iters - self@.steps,
        {
            let ghost pre = self@;
            let r = self.step();
            match r {
                Err(e) => {
                    return Err(e);
                },
                Ok(StepResult::Running) => {
                },
                Ok(sr) => {
                    proof {
                        assert(spec_run_model(pre, spec_run_fuel(pre)) == spec_run_model(
                            self@,
                            (spec_run_fuel(pre) - 1) as nat,
                        ));
                        if sr is GoalReached {
                            let popped = pre.open[spec_scan_best(pre.open)];
                            lemma_scan_from_range(pre.open, pre.open.len() - 1, 0);
                            assert(spec_snapshot_ok(
                                pre.cells,
                                pre.steps,
                                pre.open[spec_scan_best(pre.open)],
                            ));
                            lemma_walk_path_shape(pre.cells, popped, pre.cells.len() as nat);
                        }
                    }
                    return Ok(sr);
                },
            }
            proof {
                assert(spec_run_model(pre, spec_run_fuel(pre)) == spec_run_model(
                    self@,
                    (spec_run_fuel(pre) - 1) as nat,
                ));
            }
        }
    }
}

} // verus!
