//! The grid data model: cells, their attributes, and grid construction.
//!
//! A grid is a fixed `rows x cols` array of cells stored row-major.  A
//! cell's `id` equals its row-major index, so ids and coordinates are in
//! bijection; parent links between cells are kept as ids.  The border of a
//! freshly built grid is `Blocked` (a wall) and the interior is `Free`.

use vstd::prelude::*;

verus! {

/// What a cell currently is.  Only `Blocked` affects the search (such a
/// cell is impassable); the remaining kinds drive rendering.
#[derive(Clone, Copy, Debug, PartialEq, Eq, Structural)]
pub enum CellKind {
    /// Passable and not yet touched by the search.
    Free,
    /// Impassable wall or barrier.
    Blocked,
    /// The unique start cell.
    Start,
    /// The unique goal cell.
    End,
    /// Member of the final path, set after the goal is reached.
    PathMember,
    /// Head of the path while it is being drawn.
    PathHead,
    /// Expanded by the search (visualisation only).
    Explored,
}

/// Failures of grid setup and of path reconstruction.
#[derive(Clone, Copy, Debug, PartialEq, Eq, Structural)]
pub enum SearchError {
    /// A coordinate lies outside the grid, or outside the open interior
    /// where the interior is required.
    OutOfBounds,
    /// A start, end or barrier assignment collides with an existing
    /// start or end cell.
    EndpointConflict,
    /// A parent chain does not lead back to the start cell within the
    /// grid's cell count.
    CorruptParentChain,
}

/// One grid position and its search state.
///
/// `g` is the best known number of steps from the start (`None` until the
/// cell is first discovered); `hsq` is the squared Euclidean distance to
/// the goal, meaningful once `g` is set.  The ranking value of the cell is
/// `g + sqrt(hsq)`.
#[derive(Clone, Copy, Debug)]
pub struct Cell {
    /// Row-major index of the cell; stable for the grid's lifetime.
    pub id: usize,
    /// Current kind, mutable for rendering; only `Blocked` affects search.
    pub kind: CellKind,
    /// Row coordinate, fixed at creation.
    pub row: usize,
    /// Column coordinate, fixed at creation.
    pub col: usize,
    /// Id of the predecessor on the best known path, `None` until known.
    pub parent_id: Option<usize>,
    /// Best known cost from the start, `None` until discovered.
    pub g: Option<u64>,
    /// Squared heuristic distance to the goal, set when discovered.
    pub hsq: u64,
    /// Marks the unique start cell; terminates path reconstruction.
    pub is_start: bool,
}

impl Cell {
    /// A blank free cell, before the grid assigns ids and coordinates.
    pub fn new() -> (c: Cell)
        ensures
            c == (Cell {
                id: 0usize,
                kind: CellKind::Free,
                row: 0usize,
                col: 0usize,
                parent_id: None::<usize>,
                g: None::<u64>,
                hsq: 0u64,
                is_start: false,
            }),
    {
        Cell {
            id: 0,
            kind: CellKind::Free,
            row: 0,
            col: 0,
            parent_id: None,
            g: None,
            hsq: 0,
            is_start: false,
        }
    }
}

/// A fixed-size 2D field of cells, stored row-major.
#[derive(Debug)]
pub struct Grid {
    /// Number of rows.
    pub rows: usize,
    /// Number of columns.
    pub cols: usize,
    /// The cells; `cells[r * cols + c]` sits at coordinate `(r, c)`.
    pub cells: Vec<Cell>,
}

/// True when `(r, c)` lies on the outermost ring of a `rows x cols` grid.
pub open spec fn spec_is_border(rows: int, cols: int, r: int, c: int) -> bool {
    r == 0 || c == 0 || r == rows - 1 || c == cols - 1
}

/// True when `(r, c)` lies strictly inside the border walls.
pub open spec fn spec_is_interior(rows: int, cols: int, r: int, c: int) -> bool {
    1 <= r < rows - 1 && 1 <= c < cols - 1
}

/// The cell at index `i` of `cells` carries its own index as id and
/// coordinates that row-major-encode to `i`.
pub open spec fn spec_cell_wf_at(rows: int, cols: int, cells: Seq<Cell>, i: int) -> bool {
    let cl = cells[i];
    &&& cl.id == i
    &&& cl.row < rows
    &&& cl.col < cols
    &&& i == cl.row * cols + cl.col
}

/// Shape of a well-formed cell array: bounded dimensions, row-major
/// length, and the id/coordinate bijection at every index.
pub open spec fn spec_cells_wf(rows: int, cols: int, cells: Seq<Cell>) -> bool {
    &&& 3 <= rows <= crate::MAX_DIM as int
    &&& 3 <= cols <= crate::MAX_DIM as int
    &&& cells.len() == rows * cols
    &&& forall|i: int| 0 <= i < cells.len() ==> spec_cell_wf_at(rows, cols, cells, i)
}

impl Grid {
    /// The cell at index `i` carries its own index as id and coordinates
    /// that row-major-encode to `i`.
    pub open spec fn cell_wf_at(self, i: int) -> bool {
        spec_cell_wf_at(self.rows as int, self.cols as int, self.cells@, i)
    }

    /// Well-formedness: bounded dimensions and the id/coordinate bijection.
    pub open spec fn wf(self) -> bool {
        spec_cells_wf(self.rows as int, self.cols as int, self.cells@)
    }

    /// Row-major index of a coordinate.
    pub open spec fn spec_id_of(self, r: int, c: int) -> int {
        r * self.cols + c
    }

    /// Builds a `rows x cols` grid: border cells `Blocked`, interior cells
    /// `Free`, ids assigned row-major, no cell discovered yet.
    pub fn build(rows: usize, cols: usize) -> (g: Grid)
        requires
            3 <= rows <= crate::MAX_DIM,
            3 <= cols <= crate::MAX_DIM,
        ensures
            g.wf(),
            g.rows == rows,
            g.cols == cols,
            forall|i: int|
                0 <= i < g.cells@.len() ==> {
                    let cl = #[trigger] g.cells@[i];
                    &&& cl.parent_id is None
                    &&& cl.g is None
                    &&& cl.hsq == 0
                    &&& !cl.is_start
                    &&& cl.kind == (if spec_is_border(
                        rows as int,
                        cols as int,
                        cl.row as int,
                        cl.col as int,
                    ) {
                        CellKind::Blocked
                    } else {
                        CellKind::Free
                    })
                },
    {
        proof {
            lemma_rc_index(rows as int, cols as int, rows as int - 1, cols as int - 1);
            assert(rows * cols <= 0x10_0000) by (nonlinear_arith)
                requires
                    rows <= 1024 && cols <= 1024,
            ;
        }
        let n: usize = rows * cols;
        let mut cells: Vec<Cell> = Vec::new();
        let mut r: usize = 0;
        let mut c: usize = 0;
        let mut i: usize = 0;
        while i < n
            invariant
                3 <= rows <= crate::MAX_DIM,
                3 <= cols <= crate::MAX_DIM,
                n == rows * cols,
                i <= n,
                cells@.len() == i,
                i == r * cols + c,
                c < cols,
                r <= rows,
                i < n ==> r < rows,
                i == n ==> r == rows,
                forall|j: int|
                    0 <= j < i ==> {
                        let cl = #[trigger] cells@[j];
                        &&& cl.id == j
                        &&& cl.row < rows
                        &&& cl.col < cols
                        &&& j == cl.row * cols + cl.col
                        &&& cl.parent_id is None
                        &&& cl.g is None
                        &&& cl.hsq == 0
                        &&& !cl.is_start
                        &&& cl.kind == (if spec_is_border(
                            rows as int,
                            cols as int,
                            cl.row as int,
                            cl.col as int,
                        ) {
                            CellKind::Blocked
                        } else {
                            CellKind::Free
                        })
                    },
            decreases n - i,
        {
            let blocked: bool = r == 0 || c == 0 || r == rows - 1 || c == cols - 1;
            let cl = Cell {
                id: i,
                kind: if blocked {
                    CellKind::Blocked
                } else {
                    CellKind::Free
                },
                row: r,
                col: c,
                parent_id: None,
                g: None,
                hsq: 0,
                is_start: false,
            };
            cells.push(cl);
            i = i + 1;
            c = c + 1;
            if c == cols {
                c = 0;
                r = r + 1;
                proof {
                    assert((r - 1) * cols + cols == r * cols) by (nonlinear_arith);
                }
            }
            proof {
                if i < n {
                    assert(r < rows) by (nonlinear_arith)
                        requires
                            i == r * cols + c && i < rows * cols && c < cols && cols > 0 && r
                                <= rows,
                    ;
                }
                if i == n {
                    assert(r == rows && c == 0) by (nonlinear_arith)
                        requires
                            i == r * cols + c && i == rows * cols && c < cols && cols > 0 && r
                                <= rows,
                    ;
                }
            }
        }
        let ghost cseq = cells@;
        let g = Grid { rows, cols, cells };
        proof {
            assert forall|j: int| 0 <= j < g.cells@.len() implies spec_cell_wf_at(g.rows as int, g.cols as int, g.cells@, j) by {
                assert(g.cells@[j] == cseq[j]);
            }
        }
        g
    }

    /// The cell at a coordinate.
    pub fn get(&self, coord: (usize, usize)) -> (c: Cell)
        requires
            self.wf(),
            coord.0 < self.rows,
            coord.1 < self.cols,
        ensures
            c == self.cells@[self.spec_id_of(coord.0 as int, coord.1 as int)],
    {
        let l: usize = self.cells.len();
        proof {
            lemma_rc_index(self.rows as int, self.cols as int, coord.0 as int, coord.1 as int);
        }
        self.cells[coord.0 * self.cols + coord.1]
    }

    /// Overwrites the kind of the cell at a coordinate.
    pub fn set_kind(&mut self, coord: (usize, usize), kind: CellKind)
        requires
            old(self).wf(),
            coord.0 < old(self).rows,
            coord.1 < old(self).cols,
        ensures
            final(self).wf(),
            final(self).rows == old(self).rows,
            final(self).cols == old(self).cols,
            final(self).cells@ == old(self).cells@.update(
                old(self).spec_id_of(coord.0 as int, coord.1 as int),
                (Cell {
                    kind,
                    ..old(self).cells@[old(self).spec_id_of(coord.0 as int, coord.1 as int)]
                }),
            ),
    {
        let l: usize = self.cells.len();
        proof {
            lemma_rc_index(self.rows as int, self.cols as int, coord.0 as int, coord.1 as int);
        }
        let i: usize = coord.0 * self.cols + coord.1;
        let cl = Cell { kind, ..self.cells[i] };
        self.cells.set(i, cl);
        proof {
            assert forall|j: int| 0 <= j < self.cells@.len() implies spec_cell_wf_at(self.rows as int, self.cols as int, self.cells@, j) by {
                assert(old(self).cell_wf_at(j));
            }
        }
    }

    /// Coordinate of the cell with a given id; `(0, 0)` when no cell has
    /// that id.
    pub fn coord_of_id(&self, id: usize) -> (coord: (usize, usize))
        requires
            self.wf(),
        ensures
            coord == (if id < self.cells@.len() {
                (self.cells@[id as int].row, self.cells@[id as int].col)
            } else {
                (0usize, 0usize)
            }),
    {
        if id < self.cells.len() {
            let cl = self.cells[id];
            (cl.row, cl.col)
        } else {
            (0, 0)
        }
    }
    /// Marks the start cell.  The coordinate must lie in the open
    /// interior; marking the end cell as start is rejected.
    pub fn mark_start(&mut self, coord: (usize, usize)) -> (res: Result<(), SearchError>)
        requires
            old(self).wf(),
        ensures
            final(self).wf(),
            final(self).rows == old(self).rows,
            final(self).cols == old(self).cols,
            !spec_is_interior(
                old(self).rows as int,
                old(self).cols as int,
                coord.0 as int,
                coord.1 as int,
            ) ==> res == Err::<(), SearchError>(SearchError::OutOfBounds) && *final(self) == *old(
                self,
            ),
            spec_is_interior(
                old(self).rows as int,
                old(self).cols as int,
                coord.0 as int,
                coord.1 as int,
            ) ==> {
                let i = old(self).spec_id_of(coord.0 as int, coord.1 as int);
                let cl = old(self).cells@[i];
                if cl.kind is End {
                    res == Err::<(), SearchError>(SearchError::EndpointConflict) && *final(self)
                        == *old(self)
                } else {
                    res == Ok::<(), SearchError>(()) && final(self).cells@ == old(
                        self,
                    ).cells@.update(i, (Cell { kind: CellKind::Start, is_start: true, ..cl }))
                }
            },
    {
        let rows = self.rows;
        let cols = self.cols;
        if !(1 <= coord.0 && coord.0 < rows - 1 && 1 <= coord.1 && coord.1 < cols - 1) {
            return Err(SearchError::OutOfBounds);
        }
        let l: usize = self.cells.len();
        proof {
            lemma_rc_index(rows as int, cols as int, coord.0 as int, coord.1 as int);
        }
        let i: usize = coord.0 * cols + coord.1;
        let cl = self.cells[i];
        if cl.kind == CellKind::End {
            return Err(SearchError::EndpointConflict);
        }
        self.cells.set(i, Cell { kind: CellKind::Start, is_start: true, ..cl });
        proof {
            assert forall|j: int| 0 <= j < self.cells@.len() implies spec_cell_wf_at(self.rows as int, self.cols as int, self.cells@, j) by {
                assert(old(self).cell_wf_at(j));
            }
        }
        Ok(())
    }

    /// Marks the end (goal) cell.  The coordinate must lie in the open
    /// interior; marking the start cell as end is rejected.
    pub fn mark_end(&mut self, coord: (usize, usize)) -> (res: Result<(), SearchError>)
        requires
            old(self).wf(),
        ensures
            final(self).wf(),
            final(self).rows == old(self).rows,
            final(self).cols == old(self).cols,
            !spec_is_interior(
                old(self).rows as int,
                old(self).cols as int,
                coord.0 as int,
                coord.1 as int,
            ) ==> res == Err::<(), SearchError>(SearchError::OutOfBounds) && *final(self) == *old(
                self,
            ),
            spec_is_interior(
                old(self).rows as int,
                old(self).cols as int,
                coord.0 as int,
                coord.1 as int,
            ) ==> {
                let i = old(self).spec_id_of(coord.0 as int, coord.1 as int);
                let cl = old(self).cells@[i];
                if cl.kind is Start {
                    res == Err::<(), SearchError>(SearchError::EndpointConflict) && *final(self)
                        == *old(self)
                } else {
                    res == Ok::<(), SearchError>(()) && final(self).cells@ == old(
                        self,
                    ).cells@.update(i, (Cell { kind: CellKind::End, ..cl }))
                }
            },
    {
        let rows = self.rows;
        let cols = self.cols;
        if !(1 <= coord.0 && coord.0 < rows - 1 && 1 <= coord.1 && coord.1 < cols - 1) {
            return Err(SearchError::OutOfBounds);
        }
        let l: usize = self.cells.len();
        proof {
            lemma_rc_index(rows as int, cols as int, coord.0 as int, coord.1 as int);
        }
        let i: usize = coord.0 * cols + coord.1;
        let cl = self.cells[i];
        if cl.kind == CellKind::Start {
            return Err(SearchError::EndpointConflict);
        }
        self.cells.set(i, Cell { kind: CellKind::End, ..cl });
        proof {
            assert forall|j: int| 0 <= j < self.cells@.len() implies spec_cell_wf_at(self.rows as int, self.cols as int, self.cells@, j) by {
                assert(old(self).cell_wf_at(j));
            }
        }
        Ok(())
    }

    /// Marks a barrier (blocked) cell anywhere inside the grid bounds.
    /// Overwriting the start or end cell is rejected.
    pub fn mark_barrier(&mut self, coord: (usize, usize)) -> (res: Result<(), SearchError>)
        requires
            old(self).wf(),
        ensures
            final(self).wf(),
            final(self).rows == old(self).rows,
            final(self).cols == old(self).cols,
            !(coord.0 < old(self).rows && coord.1 < old(self).cols) ==> res == Err::<(), SearchError>(
                SearchError::OutOfBounds,
            ) && *final(self) == *old(self),
            coord.0 < old(self).rows && coord.1 < old(self).cols ==> {
                let i = old(self).spec_id_of(coord.0 as int, coord.1 as int);
                let cl = old(self).cells@[i];
                if cl.kind is Start || cl.kind is End {
                    res == Err::<(), SearchError>(SearchError::EndpointConflict) && *final(self)
                        == *old(self)
                } else {
                    res == Ok::<(), SearchError>(()) && final(self).cells@ == old(
                        self,
                    ).cells@.update(i, (Cell { kind: CellKind::Blocked, ..cl }))
                }
            },
    {
        let rows = self.rows;
        let cols = self.cols;
        if !(coord.0 < rows && coord.1 < cols) {
            return Err(SearchError::OutOfBounds);
        }
        let l: usize = self.cells.len();
        proof {
            lemma_rc_index(rows as int, cols as int, coord.0 as int, coord.1 as int);
        }
        let i: usize = coord.0 * cols + coord.1;
        let cl = self.cells[i];
        if cl.kind == CellKind::Start || cl.kind == CellKind::End {
            return Err(SearchError::EndpointConflict);
        }
        self.cells.set(i, Cell { kind: CellKind::Blocked, ..cl });
        proof {
            assert forall|j: int| 0 <= j < self.cells@.len() implies spec_cell_wf_at(self.rows as int, self.cols as int, self.cells@, j) by {
                assert(old(self).cell_wf_at(j));
            }
        }
        Ok(())
    }

    /// A coordinate passes the neighbour filter when it lies inside the
    /// grid bounds and its cell is not blocked.
    pub open spec fn spec_nbr_ok(self, nr: int, nc: int) -> bool {
        spec_nbr_ok_at(self.rows as int, self.cols as int, self.cells@, nr, nc)
    }

    /// The passable neighbours of `(r, c)` among the first `k` candidate
    /// offsets, in candidate order.
    pub open spec fn spec_nbr_upto(self, r: int, c: int, k: int) -> Seq<(usize, usize)> {
        spec_nbr_upto_at(self.rows as int, self.cols as int, self.cells@, r, c, k)
    }

    /// The passable 8-connected (Moore) neighbourhood of `(r, c)`, in
    /// candidate order.
    pub open spec fn spec_neighbors(self, r: int, c: int) -> Seq<(usize, usize)> {
        spec_neighbors_at(self.rows as int, self.cols as int, self.cells@, r, c)
    }

    /// Collects the up-to-8 passable neighbours of `(r, c)`: candidates
    /// outside the grid bounds or on blocked cells are dropped.
    pub fn neighbors(&self, r: usize, c: usize) -> (out: Vec<(usize, usize)>)
        requires
            self.wf(),
            r < self.rows,
            c < self.cols,
        ensures
            out@ == self.spec_neighbors(r as int, c as int),
    {
        let mut out: Vec<(usize, usize)> = Vec::new();
        let mut k: usize = 0;
        while k < 8
            invariant
                self.wf(),
                r < self.rows,
                c < self.cols,
                k <= 8,
                out@ == self.spec_nbr_upto(r as int, c as int, k as int),
            decreases 8 - k,
        {
            let (dr, dc) = offset8(k);
            let nri: i64 = r as i64 + dr;
            let nci: i64 = c as i64 + dc;
            if 0 <= nri && nri < self.rows as i64 && 0 <= nci && nci < self.cols as i64 {
                let nr: usize = nri as usize;
                let nc: usize = nci as usize;
                let l: usize = self.cells.len();
                proof {
                    lemma_rc_index(self.rows as int, self.cols as int, nr as int, nc as int);
                }
                if self.cells[nr * self.cols + nc].kind != CellKind::Blocked {
                    out.push((nr, nc));
                }
            }
            k = k + 1;
        }
        out
    }

}

/// `r * cols + c` indexes inside a `rows x cols` row-major array.
pub proof fn lemma_rc_index(rows: int, cols: int, r: int, c: int)
    requires
        0 <= r < rows,
        0 <= c < cols,
    ensures
        0 <= r * cols + c < rows * cols,
{
    assert(0 <= r * cols + c < rows * cols) by (nonlinear_arith)
        requires
            0 <= r < rows && 0 <= c < cols,
    ;
}

/// Row-major encoding is injective on in-range coordinates.
pub proof fn lemma_coord_unique(cols: int, r1: int, c1: int, r2: int, c2: int)
    requires
        0 <= c1 < cols,
        0 <= c2 < cols,
        0 <= r1,
        0 <= r2,
        r1 * cols + c1 == r2 * cols + c2,
    ensures
        r1 == r2,
        c1 == c2,
{
    assert(r1 == r2 && c1 == c2) by (nonlinear_arith)
        requires
            0 <= c1 < cols && 0 <= c2 < cols && 0 <= r1 && 0 <= r2 && r1 * cols + c1 == r2 * cols
                + c2,
    ;
}


/// Candidate neighbour offsets, in the order they are examined.
pub open spec fn spec_offset(k: int) -> (int, int) {
    if k == 0 {
        (-1, -1)
    } else if k == 1 {
        (1, -1)
    } else if k == 2 {
        (-1, 1)
    } else if k == 3 {
        (1, 1)
    } else if k == 4 {
        (0, -1)
    } else if k == 5 {
        (0, 1)
    } else if k == 6 {
        (-1, 0)
    } else {
        (1, 0)
    }
}

/// Executable table of the candidate neighbour offsets.
fn offset8(k: usize) -> (d: (i64, i64))
    requires
        k < 8,
    ensures
        d.0 as int == spec_offset(k as int).0,
        d.1 as int == spec_offset(k as int).1,
        -1 <= d.0 <= 1,
        -1 <= d.1 <= 1,
{
    if k == 0 {
        (-1, -1)
    } else if k == 1 {
        (1, -1)
    } else if k == 2 {
        (-1, 1)
    } else if k == 3 {
        (1, 1)
    } else if k == 4 {
        (0, -1)
    } else if k == 5 {
        (0, 1)
    } else if k == 6 {
        (-1, 0)
    } else {
        (1, 0)
    }
}

/// A coordinate passes the neighbour filter when it lies inside the grid
/// bounds and its cell is not blocked.
pub open spec fn spec_nbr_ok_at(rows: int, cols: int, cells: Seq<Cell>, nr: int, nc: int) -> bool {
    &&& 0 <= nr < rows
    &&& 0 <= nc < cols
    &&& cells[nr * cols + nc].kind != CellKind::Blocked
}

/// The passable neighbours of `(r, c)` among the first `k` candidate
/// offsets, in candidate order.
pub open spec fn spec_nbr_upto_at(
    rows: int,
    cols: int,
    cells: Seq<Cell>,
    r: int,
    c: int,
    k: int,
) -> Seq<(usize, usize)>
    decreases k,
{
    if k <= 0 {
        Seq::empty()
    } else {
        let prev = spec_nbr_upto_at(rows, cols, cells, r, c, k - 1);
        let o = spec_offset(k - 1);
        let nr = r + o.0;
        let nc = c + o.1;
        if spec_nbr_ok_at(rows, cols, cells, nr, nc) {
            prev.push(((nr as usize, nc as usize)))
        } else {
            prev
        }
    }
}

/// The passable 8-connected (Moore) neighbourhood of `(r, c)`, in
/// candidate order.
pub open spec fn spec_neighbors_at(
    rows: int,
    cols: int,
    cells: Seq<Cell>,
    r: int,
    c: int,
) -> Seq<(usize, usize)> {
    spec_nbr_upto_at(rows, cols, cells, r, c, 8)
}

/// Every entry of the neighbour list is a passable in-bounds coordinate
/// exactly one Moore step away from `(r, c)`.
pub proof fn lemma_neighbors_ok(rows: int, cols: int, cells: Seq<Cell>, r: int, c: int, k: int)
    requires
        0 <= k <= 8,
        0 <= rows <= crate::MAX_DIM as int,
        0 <= cols <= crate::MAX_DIM as int,
    ensures
        spec_nbr_upto_at(rows, cols, cells, r, c, k).len() <= k,
        forall|j: int|
            0 <= j < spec_nbr_upto_at(rows, cols, cells, r, c, k).len() ==> {
                let p = #[trigger] spec_nbr_upto_at(rows, cols, cells, r, c, k)[j];
                &&& spec_nbr_ok_at(rows, cols, cells, p.0 as int, p.1 as int)
                &&& -1 <= p.0 - r <= 1
                &&& -1 <= p.1 - c <= 1
                &&& !(p.0 == r && p.1 == c)
            },
    decreases k,
{
    if k > 0 {
        lemma_neighbors_ok(rows, cols, cells, r, c, k - 1);
        let prev = spec_nbr_upto_at(rows, cols, cells, r, c, k - 1);
        let cur = spec_nbr_upto_at(rows, cols, cells, r, c, k);
        let o = spec_offset(k - 1);
        let nr = r + o.0;
        let nc = c + o.1;
        if spec_nbr_ok_at(rows, cols, cells, nr, nc) {
            assert(cur == prev.push(((nr as usize, nc as usize))));
            assert forall|j: int| 0 <= j < cur.len() implies {
                let p = #[trigger] cur[j];
                &&& spec_nbr_ok_at(rows, cols, cells, p.0 as int, p.1 as int)
                &&& -1 <= p.0 - r <= 1
                &&& -1 <= p.1 - c <= 1
                &&& !(p.0 == r && p.1 == c)
            } by {
                if j < prev.len() {
                    assert(cur[j] == prev[j]);
                } else {
                    assert(cur[j] == ((nr as usize, nc as usize)));
                }
            }
        } else {
            assert(cur == prev);
        }
    }
}


/// The kind a cell at `(r, c)` holds after a successful grid setup.
pub open spec fn spec_setup_kind(
    rows: int,
    cols: int,
    start: (usize, usize),
    goal: (usize, usize),
    barriers: Seq<(usize, usize)>,
    r: usize,
    c: usize,
) -> CellKind {
    if (r, c) == start {
        CellKind::Start
    } else if (r, c) == goal {
        CellKind::End
    } else if spec_is_border(rows, cols, r as int, c as int) || barriers.contains((r, c)) {
        CellKind::Blocked
    } else {
        CellKind::Free
    }
}

/// First failure among the barrier coordinates, in list order: out of the
/// grid bounds, or colliding with the start or goal cell.
pub open spec fn spec_barrier_error(
    barriers: Seq<(usize, usize)>,
    start: (usize, usize),
    goal: (usize, usize),
    rows: int,
    cols: int,
) -> Option<SearchError>
    decreases barriers.len(),
{
    if barriers.len() == 0 {
        None
    } else {
        let b = barriers[0];
        if !(b.0 < rows && b.1 < cols) {
            Some(SearchError::OutOfBounds)
        } else if b == start || b == goal {
            Some(SearchError::EndpointConflict)
        } else {
            spec_barrier_error(barriers.drop_first(), start, goal, rows, cols)
        }
    }
}

/// First failure of the whole setup: start, then goal, then the barriers.
pub open spec fn spec_setup_error(
    rows: int,
    cols: int,
    start: (usize, usize),
    goal: (usize, usize),
    barriers: Seq<(usize, usize)>,
) -> Option<SearchError> {
    if !spec_is_interior(rows, cols, start.0 as int, start.1 as int) {
        Some(SearchError::OutOfBounds)
    } else if !spec_is_interior(rows, cols, goal.0 as int, goal.1 as int) {
        Some(SearchError::OutOfBounds)
    } else if goal == start {
        Some(SearchError::EndpointConflict)
    } else {
        spec_barrier_error(barriers, start, goal, rows, cols)
    }
}

/// Pointwise description of a freshly set up grid: nothing discovered,
/// exactly the start cell flagged, and every kind as `spec_setup_kind`
/// prescribes.
pub open spec fn spec_setup_cells(
    g: Grid,
    start: (usize, usize),
    goal: (usize, usize),
    barriers: Seq<(usize, usize)>,
) -> bool {
    forall|i: int|
        0 <= i < g.cells@.len() ==> {
            let cl = #[trigger] g.cells@[i];
            &&& cl.parent_id is None
            &&& cl.g is None
            &&& cl.hsq == 0
            &&& (cl.is_start <==> (cl.row, cl.col) == start)
            &&& cl.kind == spec_setup_kind(
                g.rows as int,
                g.cols as int,
                start,
                goal,
                barriers,
                cl.row,
                cl.col,
            )
        }
}

/// What a search needs of its grid at the outset: well-formed, start and
/// goal distinct interior coordinates, nothing discovered yet, and exactly
/// the start cell flagged.
pub open spec fn spec_search_ready(g: Grid, start: (usize, usize), goal: (usize, usize)) -> bool {
    &&& g.wf()
    &&& spec_is_interior(g.rows as int, g.cols as int, start.0 as int, start.1 as int)
    &&& spec_is_interior(g.rows as int, g.cols as int, goal.0 as int, goal.1 as int)
    &&& start != goal
    &&& forall|i: int|
        0 <= i < g.cells@.len() ==> {
            let cl = #[trigger] g.cells@[i];
            &&& cl.parent_id is None
            &&& cl.g is None
            &&& (cl.is_start <==> (cl.row, cl.col) == start)
        }
}

/// Extending the processed prefix of the barrier list by one element only
/// adds that element to what the prefix contains.
proof fn lemma_take_contains<T>(s: Seq<T>, k: int, x: T)
    requires
        0 <= k < s.len(),
    ensures
        s.take(k + 1).contains(x) <==> (s.take(k).contains(x) || x == s[k]),
{
    if s.take(k + 1).contains(x) {
        let j = choose|j: int| 0 <= j < s.take(k + 1).len() && #[trigger] s.take(k + 1)[j] == x;
        if j < k {
            assert(s.take(k)[j] == x);
        }
    }
    if s.take(k).contains(x) {
        let j = choose|j: int| 0 <= j < s.take(k).len() && #[trigger] s.take(k)[j] == x;
        assert(s.take(k + 1)[j] == x);
    }
    if x == s[k] {
        assert(s.take(k + 1)[k] == x);
    }
}

/// Builds a complete search arena: a walled grid with the start cell, the
/// goal cell and the barrier list applied, each assignment validated.
pub fn build_grid(
    rows: usize,
    cols: usize,
    start: (usize, usize),
    goal: (usize, usize),
    barriers: &Vec<(usize, usize)>,
) -> (res: Result<Grid, SearchError>)
    requires
        3 <= rows <= crate::MAX_DIM,
        3 <= cols <= crate::MAX_DIM,
    ensures
        match res {
            Err(e) => Some(e) == spec_setup_error(rows as int, cols as int, start, goal, barriers@),
            Ok(g) => {
                &&& spec_setup_error(rows as int, cols as int, start, goal, barriers@) is None
                &&& g.rows == rows
                &&& g.cols == cols
                &&& spec_setup_cells(g, start, goal, barriers@)
                &&& spec_search_ready(g, start, goal)
            },
        },
{
    let mut g = Grid::build(rows, cols);
    let ghost gb = g;
    match g.mark_start(start) {
        Err(e) => {
            proof {
                if spec_is_interior(rows as int, cols as int, start.0 as int, start.1 as int) {
                    let si = gb.spec_id_of(start.0 as int, start.1 as int);
                    lemma_rc_index(rows as int, cols as int, start.0 as int, start.1 as int);
                    assert(gb.cell_wf_at(si));
                    lemma_coord_unique(
                        cols as int,
                        gb.cells@[si].row as int,
                        gb.cells@[si].col as int,
                        start.0 as int,
                        start.1 as int,
                    );
                }
            }
            return Err(e);
        },
        Ok(()) => {},
    }
    let ghost gs = g;
    proof {
        let si = gb.spec_id_of(start.0 as int, start.1 as int);
        lemma_rc_index(rows as int, cols as int, start.0 as int, start.1 as int);
        assert(gb.cell_wf_at(si));
        lemma_coord_unique(
            cols as int,
            gb.cells@[si].row as int,
            gb.cells@[si].col as int,
            start.0 as int,
            start.1 as int,
        );
    }
    match g.mark_end(goal) {
        Err(e) => {
            proof {
                if spec_is_interior(rows as int, cols as int, goal.0 as int, goal.1 as int) {
                    let si = gs.spec_id_of(start.0 as int, start.1 as int);
                    let gi = gs.spec_id_of(goal.0 as int, goal.1 as int);
                    lemma_rc_index(rows as int, cols as int, goal.0 as int, goal.1 as int);
                    assert(gs.cell_wf_at(gi));
                    lemma_coord_unique(
                        cols as int,
                        gs.cells@[gi].row as int,
                        gs.cells@[gi].col as int,
                        goal.0 as int,
                        goal.1 as int,
                    );
                    if gs.cells@[gi].kind is Start {
                        assert(gb.cell_wf_at(gi));
                    }
                }
            }
            return Err(e);
        },
        Ok(()) => {},
    }
    proof {
        let si = gs.spec_id_of(start.0 as int, start.1 as int);
        let gi = gs.spec_id_of(goal.0 as int, goal.1 as int);
        lemma_rc_index(rows as int, cols as int, goal.0 as int, goal.1 as int);
        assert(gs.cell_wf_at(gi));
        lemma_coord_unique(
            cols as int,
            gs.cells@[gi].row as int,
            gs.cells@[gi].col as int,
            goal.0 as int,
            goal.1 as int,
        );
        assert(goal != start);
        assert forall|i: int| 0 <= i < g.cells@.len() implies {
            let cl = #[trigger] g.cells@[i];
            &&& cl.parent_id is None
            &&& cl.g is None
            &&& cl.hsq == 0
            &&& (cl.is_start <==> (cl.row, cl.col) == start)
            &&& cl.kind == spec_setup_kind(
                rows as int,
                cols as int,
                start,
                goal,
                barriers@.take(0),
                cl.row,
                cl.col,
            )
        } by {
            assert(gb.cell_wf_at(i));
            assert(g.cell_wf_at(i));
        }
    }
    proof {
        assert(barriers@.skip(0) =~= barriers@);
    }
    let mut k: usize = 0;
    while k < barriers.len()
        invariant
            3 <= rows <= crate::MAX_DIM,
            3 <= cols <= crate::MAX_DIM,
            k <= barriers@.len(),
            g.wf(),
            g.rows == rows,
            g.cols == cols,
            spec_is_interior(rows as int, cols as int, start.0 as int, start.1 as int),
            spec_is_interior(rows as int, cols as int, goal.0 as int, goal.1 as int),
            goal != start,
            spec_setup_cells(g, start, goal, barriers@.take(k as int)),
            spec_barrier_error(barriers@, start, goal, rows as int, cols as int)
                == spec_barrier_error(
                barriers@.skip(k as int),
                start,
                goal,
                rows as int,
                cols as int,
            ),
        decreases barriers@.len() - k,
    {
        let b = barriers[k];
        let ghost g0 = g;
        proof {
            assert(barriers@.skip(k as int)[0] == b);
            assert(barriers@.skip(k as int).drop_first() =~= barriers@.skip(k as int + 1));
        }
        match g.mark_barrier(b) {
            Err(e) => {
                proof {
                    if b.0 < rows && b.1 < cols {
                        let bi = g0.spec_id_of(b.0 as int, b.1 as int);
                        lemma_rc_index(rows as int, cols as int, b.0 as int, b.1 as int);
                        assert(g0.cell_wf_at(bi));
                        lemma_coord_unique(
                            cols as int,
                            g0.cells@[bi].row as int,
                            g0.cells@[bi].col as int,
                            b.0 as int,
                            b.1 as int,
                        );
                    }
                }
                return Err(e);
            },
            Ok(()) => {},
        }
        proof {
            let bi = g0.spec_id_of(b.0 as int, b.1 as int);
            lemma_rc_index(rows as int, cols as int, b.0 as int, b.1 as int);
            assert(g0.cell_wf_at(bi));
            lemma_coord_unique(
                cols as int,
                g0.cells@[bi].row as int,
                g0.cells@[bi].col as int,
                b.0 as int,
                b.1 as int,
            );
            assert(barriers@.take(k as int + 1)[k as int] == b);
            assert(barriers@.take(k as int + 1).contains(b));
            assert forall|i: int| 0 <= i < g.cells@.len() implies {
                let cl = #[trigger] g.cells@[i];
                &&& cl.parent_id is None
                &&& cl.g is None
                &&& cl.hsq == 0
                &&& (cl.is_start <==> (cl.row, cl.col) == start)
                &&& cl.kind == spec_setup_kind(
                    rows as int,
                    cols as int,
                    start,
                    goal,
                    barriers@.take(k as int + 1),
                    cl.row,
                    cl.col,
                )
            } by {
                assert(g0.cell_wf_at(i));
                assert(g.cell_wf_at(i));
                lemma_take_contains(barriers@, k as int, (g.cells@[i].row, g.cells@[i].col));
            }
        }
        k = k + 1;
    }
    proof {
        assert(barriers@.take(barriers@.len() as int) =~= barriers@);
        assert(barriers@.skip(k as int) =~= Seq::<(usize, usize)>::empty());
    }
    Ok(g)
}

} // verus!
