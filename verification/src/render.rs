//! Pure rendering of a grid to rows of display glyphs.
//!
//! Each cell kind maps to one character; a rendered row is the row's
//! glyphs framed by one leading and one trailing space, as the terminal
//! display draws it.  Printing the rows is left to the caller.

use vstd::prelude::*;

use crate::grid::{lemma_rc_index, spec_cell_wf_at, CellKind, Grid};

verus! {

/// The display glyph of a cell kind.
pub open spec fn spec_glyph(kind: CellKind) -> char {
    match kind {
        CellKind::Free => ' ',
        CellKind::Blocked => '%',
        CellKind::Start => '1',
        CellKind::End => '2',
        CellKind::PathMember => '+',
        CellKind::PathHead => '^',
        CellKind::Explored => '!',
    }
}

/// Maps a cell kind to the character that draws it.
pub fn create_gridpoint_string(kind: CellKind) -> (c: char)
    ensures
        c == spec_glyph(kind),
{
    match kind {
        CellKind::Free => ' ',
        CellKind::Blocked => '%',
        CellKind::Start => '1',
        CellKind::End => '2',
        CellKind::PathMember => '+',
        CellKind::PathHead => '^',
        CellKind::Explored => '!',
    }
}

/// The rendered form of row `r`: its glyphs framed by one space on each
/// side.
pub open spec fn spec_row_chars(g: Grid, r: int) -> Seq<char> {
    seq![' '] + Seq::new(
        g.cols as nat,
        |c: int| spec_glyph(g.cells@[r * g.cols + c].kind),
    ) + seq![' ']
}

/// Renders one grid row.
pub fn render_row(grid: &Grid, r: usize) -> (line: Vec<char>)
    requires
        grid.wf(),
        r < grid.rows,
    ensures
        line@ == spec_row_chars(*grid, r as int),
{
    let mut line: Vec<char> = Vec::new();
    line.push(' ');
    let l = grid.cells.len();
    let mut c: usize = 0;
    while c < grid.cols
        invariant
            grid.wf(),
            r < grid.rows,
            c <= grid.cols,
            l == grid.cells@.len(),
            line@.len() == c + 1,
            line@[0] == ' ',
            forall|j: int|
                1 <= j <= c ==> #[trigger] line@[j] == spec_glyph(
                    grid.cells@[r * grid.cols + (j - 1)].kind,
                ),
        decreases grid.cols - c,
    {
        proof {
            lemma_rc_index(grid.rows as int, grid.cols as int, r as int, c as int);
        }
        line.push(create_gridpoint_string(grid.cells[r * grid.cols + c].kind));
        c = c + 1;
    }
    line.push(' ');
    proof {
        assert(line@ =~= spec_row_chars(*grid, r as int));
    }
    line
}

/// Renders the whole grid, top row first.
pub fn render_grid(grid: &Grid) -> (lines: Vec<Vec<char>>)
    requires
        grid.wf(),
    ensures
        lines@.len() == grid.rows,
        forall|r: int| 0 <= r < grid.rows ==> (#[trigger] lines@[r])@ == spec_row_chars(*grid, r),
{
    let mut lines: Vec<Vec<char>> = Vec::new();
    let mut r: usize = 0;
    while r < grid.rows
        invariant
            grid.wf(),
            r <= grid.rows,
            lines@.len() == r,
            forall|j: int| 0 <= j < r ==> (#[trigger] lines@[j])@ == spec_row_chars(*grid, j),
        decreases grid.rows - r,
    {
        let line = render_row(grid, r);
        lines.push(line);
        r = r + 1;
    }
    lines
}

} // verus!
