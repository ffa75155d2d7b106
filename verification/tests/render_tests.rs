use astar_grid::grid::{build_grid, CellKind, Grid};
use astar_grid::render::{create_gridpoint_string, render_grid, render_row};
use astar_grid::search::{Search, StepResult};

#[test]
fn each_kind_has_its_glyph() {
    assert_eq!(create_gridpoint_string(CellKind::Free), ' ');
    assert_eq!(create_gridpoint_string(CellKind::Blocked), '%');
    assert_eq!(create_gridpoint_string(CellKind::Start), '1');
    assert_eq!(create_gridpoint_string(CellKind::End), '2');
    assert_eq!(create_gridpoint_string(CellKind::PathMember), '+');
    assert_eq!(create_gridpoint_string(CellKind::PathHead), '^');
    assert_eq!(create_gridpoint_string(CellKind::Explored), '!');
}

#[test]
fn rows_are_glyphs_framed_by_spaces() {
    let g = build_grid(4, 4, (1, 1), (2, 2), &Vec::new()).unwrap();
    let row_text = |r: usize| -> String { render_row(&g, r).into_iter().collect() };
    assert_eq!(row_text(0), " %%%% ");
    assert_eq!(row_text(1), " %1 % ");
    assert_eq!(row_text(2), " % 2% ");
    assert_eq!(row_text(3), " %%%% ");
}

#[test]
fn render_grid_covers_every_row() {
    let g = Grid::build(5, 7);
    let lines = render_grid(&g);
    assert_eq!(lines.len(), 5);
    for line in &lines {
        assert_eq!(line.len(), 9);
    }
}

#[test]
fn finished_search_draws_the_path() {
    let g = build_grid(4, 4, (1, 1), (2, 2), &Vec::new()).unwrap();
    let mut s = Search::new(g, (1, 1), (2, 2), 100);
    loop {
        match s.step().unwrap() {
            StepResult::Running => {},
            StepResult::GoalReached(_) => break,
            other => panic!("expected GoalReached, got {:?}", other),
        }
    }
    let texts: Vec<String> = render_grid(&s.grid)
        .into_iter()
        .map(|l| l.into_iter().collect())
        .collect();
    assert_eq!(texts[1], " %+ % ");
    assert_eq!(texts[2], " % +% ");
}
