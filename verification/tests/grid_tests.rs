use astar_grid::grid::{build_grid, Cell, CellKind, Grid, SearchError};

#[test]
fn build_assigns_dims_ids_and_coords() {
    let g = Grid::build(5, 7);
    assert_eq!(g.rows, 5);
    assert_eq!(g.cols, 7);
    assert_eq!(g.cells.len(), 35);
    let c = g.get((1, 2));
    assert_eq!(c.id, 9);
    assert_eq!(c.row, 1);
    assert_eq!(c.col, 2);
    assert_eq!(c.parent_id, None);
    assert_eq!(c.g, None);
    assert!(!c.is_start);
}

#[test]
fn build_blocks_border_frees_interior() {
    let g = Grid::build(4, 5);
    for r in 0..4 {
        for c in 0..5 {
            let cell = g.get((r, c));
            let border = r == 0 || c == 0 || r == 3 || c == 4;
            if border {
                assert_eq!(cell.kind, CellKind::Blocked);
            } else {
                assert_eq!(cell.kind, CellKind::Free);
            }
        }
    }
}

#[test]
fn coord_of_id_inverts_ids() {
    let g = Grid::build(6, 6);
    assert_eq!(g.coord_of_id(0), (0, 0));
    assert_eq!(g.coord_of_id(13), (2, 1));
    assert_eq!(g.coord_of_id(35), (5, 5));
    // An id no cell carries falls back to the origin.
    assert_eq!(g.coord_of_id(36), (0, 0));
}

#[test]
fn set_kind_overwrites_one_cell() {
    let mut g = Grid::build(4, 4);
    g.set_kind((2, 2), CellKind::Explored);
    assert_eq!(g.get((2, 2)).kind, CellKind::Explored);
    assert_eq!(g.get((1, 1)).kind, CellKind::Free);
}

#[test]
fn neighbors_of_center_come_in_candidate_order() {
    let g = Grid::build(5, 5);
    let n = g.neighbors(2, 2);
    assert_eq!(
        n,
        vec![(1, 1), (3, 1), (1, 3), (3, 3), (2, 1), (2, 3), (1, 2), (3, 2)]
    );
}

#[test]
fn neighbors_drop_blocked_cells() {
    let mut g = Grid::build(5, 5);
    // A corner interior cell: the border walls swallow most candidates.
    assert_eq!(g.neighbors(1, 1), vec![(2, 2), (1, 2), (2, 1)]);
    g.mark_barrier((2, 2)).unwrap();
    assert_eq!(g.neighbors(1, 1), vec![(1, 2), (2, 1)]);
}

#[test]
fn mark_start_rejects_border_and_outside() {
    let mut g = Grid::build(4, 4);
    assert_eq!(g.mark_start((0, 0)), Err(SearchError::OutOfBounds));
    assert_eq!(g.mark_start((3, 1)), Err(SearchError::OutOfBounds));
    assert_eq!(g.mark_start((9, 9)), Err(SearchError::OutOfBounds));
    assert_eq!(g.mark_start((1, 1)), Ok(()));
    assert_eq!(g.get((1, 1)).kind, CellKind::Start);
    assert!(g.get((1, 1)).is_start);
}

#[test]
fn mark_end_rejects_the_start_cell() {
    let mut g = Grid::build(4, 4);
    g.mark_start((1, 1)).unwrap();
    assert_eq!(g.mark_end((1, 1)), Err(SearchError::EndpointConflict));
    assert_eq!(g.mark_end((2, 2)), Ok(()));
    assert_eq!(g.get((2, 2)).kind, CellKind::End);
}

#[test]
fn mark_barrier_guards_endpoints() {
    let mut g = Grid::build(5, 5);
    g.mark_start((1, 1)).unwrap();
    g.mark_end((3, 3)).unwrap();
    assert_eq!(g.mark_barrier((1, 1)), Err(SearchError::EndpointConflict));
    assert_eq!(g.mark_barrier((3, 3)), Err(SearchError::EndpointConflict));
    assert_eq!(g.mark_barrier((5, 0)), Err(SearchError::OutOfBounds));
    assert_eq!(g.mark_barrier((2, 2)), Ok(()));
    assert_eq!(g.get((2, 2)).kind, CellKind::Blocked);
    // Border cells may be marked again without effect.
    assert_eq!(g.mark_barrier((0, 0)), Ok(()));
}

#[test]
fn build_grid_applies_everything_or_reports_the_first_fault() {
    let barriers = vec![(2, 1), (2, 2)];
    let g = build_grid(5, 5, (1, 1), (3, 3), &barriers).unwrap();
    assert_eq!(g.get((1, 1)).kind, CellKind::Start);
    assert!(g.get((1, 1)).is_start);
    assert_eq!(g.get((3, 3)).kind, CellKind::End);
    assert_eq!(g.get((2, 1)).kind, CellKind::Blocked);
    assert_eq!(g.get((2, 2)).kind, CellKind::Blocked);
    assert_eq!(g.get((1, 2)).kind, CellKind::Free);

    assert_eq!(
        build_grid(5, 5, (0, 1), (3, 3), &vec![]).unwrap_err(),
        SearchError::OutOfBounds
    );
    assert_eq!(
        build_grid(5, 5, (1, 1), (4, 3), &vec![]).unwrap_err(),
        SearchError::OutOfBounds
    );
    assert_eq!(
        build_grid(5, 5, (1, 1), (1, 1), &vec![]).unwrap_err(),
        SearchError::EndpointConflict
    );
    assert_eq!(
        build_grid(5, 5, (1, 1), (3, 3), &vec![(7, 7)]).unwrap_err(),
        SearchError::OutOfBounds
    );
    assert_eq!(
        build_grid(5, 5, (1, 1), (3, 3), &vec![(2, 2), (1, 1)]).unwrap_err(),
        SearchError::EndpointConflict
    );
}

#[test]
fn cell_new_is_blank() {
    let c = Cell::new();
    assert_eq!(c.id, 0);
    assert_eq!(c.kind, CellKind::Free);
    assert_eq!((c.row, c.col), (0, 0));
    assert_eq!(c.parent_id, None);
    assert_eq!(c.g, None);
    assert_eq!(c.hsq, 0);
    assert!(!c.is_start);
}
