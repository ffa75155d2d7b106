use astar_grid::grid::{build_grid, Cell, CellKind, Grid, SearchError};
use astar_grid::search::{reconstruct_path, Search, Status, StepResult};

/// The demo arena: 30x45, border walls, start low, goal high, one
/// interior horizontal wall across row 16 from column 1 to column `wall_end`
/// inclusive.
fn arena(wall_end: usize) -> Grid {
    let mut barriers: Vec<(usize, usize)> = Vec::new();
    for c in 1..=wall_end {
        barriers.push((16, c));
    }
    build_grid(30, 45, (27, 20), (3, 3), &barriers).unwrap()
}

fn run_to_end(search: &mut Search) -> StepResult {
    search.run().unwrap()
}

#[test]
fn walled_arena_with_gap_detours_through_it() {
    // Wall spans columns 1..=38, leaving a gap at columns 39..=43.
    let g = arena(38);
    let mut s = Search::new(g, (27, 20), (3, 3), 100_000);
    match run_to_end(&mut s) {
        StepResult::GoalReached(path) => {
            assert_eq!(s.status, Status::GoalReached);
            // Path runs goal..start.
            let first = path.first().unwrap();
            let last = path.last().unwrap();
            assert_eq!((first.row, first.col), (3, 3));
            assert!(last.is_start);
            assert_eq!((last.row, last.col), (27, 20));
            // The detour passes the wall through the gap.
            assert!(path
                .iter()
                .any(|c| c.row == 16 && c.col >= 39 && c.col <= 43));
            // Every consecutive pair is 8-adjacent.
            for w in path.windows(2) {
                let dr = w[0].row.abs_diff(w[1].row);
                let dc = w[0].col.abs_diff(w[1].col);
                assert!(dr <= 1 && dc <= 1 && (dr, dc) != (0, 0));
            }
        },
        other => panic!("expected GoalReached, got {:?}", other),
    }
}

#[test]
fn walled_arena_without_gap_exhausts() {
    // Wall spans the full interior width, columns 1..=43: no way through,
    // so the search must end Exhausted, not Aborted.
    let g = arena(43);
    let mut s = Search::new(g, (27, 20), (3, 3), 100_000);
    match run_to_end(&mut s) {
        StepResult::Exhausted => {
            assert_eq!(s.status, Status::Exhausted);
        },
        other => panic!("expected Exhausted, got {:?}", other),
    }
}

#[test]
fn rerunning_an_identical_grid_gives_identical_path_and_steps() {
    let path_and_steps = |wall_end: usize| {
        let g = arena(wall_end);
        let mut s = Search::new(g, (27, 20), (3, 3), 100_000);
        match run_to_end(&mut s) {
            StepResult::GoalReached(path) => {
                let ids: Vec<usize> = path.iter().map(|c| c.id).collect();
                (ids, s.steps)
            },
            other => panic!("expected GoalReached, got {:?}", other),
        }
    };
    let (p1, n1) = path_and_steps(38);
    let (p2, n2) = path_and_steps(38);
    assert_eq!(p1, p2);
    assert_eq!(n1, n2);
}

#[test]
fn barrier_free_path_length_is_the_chebyshev_distance() {
    // Start (27, 20), goal (3, 3): max(|24|, |17|) = 24 steps, so the
    // goal-to-start path holds 25 cells.
    let g = build_grid(30, 45, (27, 20), (3, 3), &Vec::new()).unwrap();
    let mut s = Search::new(g, (27, 20), (3, 3), 100_000);
    match run_to_end(&mut s) {
        StepResult::GoalReached(path) => {
            assert_eq!(path.len(), 25);
        },
        other => panic!("expected GoalReached, got {:?}", other),
    }
}

#[test]
fn adjacent_start_and_goal_meet_in_two_steps() {
    let g = build_grid(4, 4, (1, 1), (2, 2), &Vec::new()).unwrap();
    let mut s = Search::new(g, (1, 1), (2, 2), 1000);
    match run_to_end(&mut s) {
        StepResult::GoalReached(path) => {
            assert_eq!(path.len(), 2);
            assert_eq!(path[0].id, s.goal_id);
            assert!(path[1].is_start);
            assert_eq!(s.steps, 2);
            // The final path is marked on the grid for rendering.
            assert_eq!(s.grid.get((1, 1)).kind, CellKind::PathMember);
            assert_eq!(s.grid.get((2, 2)).kind, CellKind::PathMember);
        },
        other => panic!("expected GoalReached, got {:?}", other),
    }
}

#[test]
fn enclosed_start_exhausts_immediately() {
    let barriers = vec![(1, 2), (2, 1), (2, 2)];
    let g = build_grid(5, 5, (1, 1), (3, 3), &barriers).unwrap();
    let mut s = Search::new(g, (1, 1), (3, 3), 1000);
    match run_to_end(&mut s) {
        StepResult::Exhausted => {
            // One step expands the start in vain, the next one reports.
            assert_eq!(s.steps, 2);
        },
        other => panic!("expected Exhausted, got {:?}", other),
    }
}

#[test]
fn iteration_ceiling_aborts_the_search() {
    let g = arena(38);
    let mut s = Search::new(g, (27, 20), (3, 3), 5);
    match run_to_end(&mut s) {
        StepResult::Aborted => {
            assert_eq!(s.status, Status::Aborted);
            assert_eq!(s.steps, 5);
        },
        other => panic!("expected Aborted, got {:?}", other),
    }

    // A ceiling of zero gives up before the first pop.
    let g = arena(38);
    let mut s = Search::new(g, (27, 20), (3, 3), 0);
    assert!(matches!(run_to_end(&mut s), StepResult::Aborted));
    assert_eq!(s.steps, 0);
}

#[test]
fn single_steps_report_running_until_terminal() {
    let g = build_grid(4, 4, (1, 1), (2, 2), &Vec::new()).unwrap();
    let mut s = Search::new(g, (1, 1), (2, 2), 1000);
    assert_eq!(s.status, Status::Running);
    assert!(matches!(s.step().unwrap(), StepResult::Running));
    assert_eq!(s.status, Status::Running);
    assert!(matches!(s.step().unwrap(), StepResult::GoalReached(_)));
    assert_eq!(s.status, Status::GoalReached);
}

#[test]
fn reconstruct_reports_a_corrupt_parent_chain() {
    // A hand-made grid whose parent links form a cycle that never
    // reaches a start cell.
    let mut cells = Vec::new();
    for i in 0..9usize {
        let mut c = Cell::new();
        c.id = i;
        c.row = i / 3;
        c.col = i % 3;
        c.g = Some(1);
        cells.push(c);
    }
    cells[0].parent_id = Some(1);
    cells[1].parent_id = Some(0);
    let g = Grid { rows: 3, cols: 3, cells };
    let from = g.get((0, 0));
    assert_eq!(
        reconstruct_path(&g, from).unwrap_err(),
        SearchError::CorruptParentChain
    );

    // A missing link fails the same way.
    let mut c = Cell::new();
    c.id = 4;
    c.row = 1;
    c.col = 1;
    let g2 = Grid { rows: 3, cols: 3, cells: vec![Cell::new(); 9] };
    assert_eq!(
        reconstruct_path(&g2, c).unwrap_err(),
        SearchError::CorruptParentChain
    );
}

#[test]
fn reconstruct_walks_a_valid_chain() {
    let mut cells = Vec::new();
    for i in 0..9usize {
        let mut c = Cell::new();
        c.id = i;
        c.row = i / 3;
        c.col = i % 3;
        cells.push(c);
    }
    cells[0].is_start = true;
    cells[0].g = Some(0);
    cells[4].parent_id = Some(0);
    cells[4].g = Some(1);
    cells[8].parent_id = Some(4);
    cells[8].g = Some(2);
    let g = Grid { rows: 3, cols: 3, cells };
    let path = reconstruct_path(&g, g.get((2, 2))).unwrap();
    let ids: Vec<usize> = path.iter().map(|c| c.id).collect();
    assert_eq!(ids, vec![8, 4, 0]);
    assert!(path[2].is_start);
}
