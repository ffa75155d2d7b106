use astar_grid::grid::Cell;
use astar_grid::frontier::OpenSet;

fn snap(id: usize, g: u64, hsq: u64) -> Cell {
    let mut c = Cell::new();
    c.id = id;
    c.g = Some(g);
    c.hsq = hsq;
    c
}

#[test]
fn push_suppresses_duplicates_by_id() {
    // Pushing a cell already present under the same id must not create a
    // duplicate entry: the size stays the count of distinct ids.
    let mut s = OpenSet::new();
    s.push(snap(7, 1, 0));
    s.push(snap(8, 2, 0));
    assert_eq!(s.len(), 2);
    s.push(snap(7, 0, 0));
    assert_eq!(s.len(), 2);
    // The original member is kept, not replaced.
    assert_eq!(s.get(0).g, Some(1));
}

#[test]
fn contains_and_remove_work_by_id() {
    let mut s = OpenSet::new();
    s.push(snap(3, 1, 0));
    s.push(snap(4, 1, 0));
    assert!(s.contains_id(3));
    assert!(!s.contains_id(5));
    s.remove_id(3);
    assert!(!s.contains_id(3));
    assert_eq!(s.len(), 1);
    s.remove_id(99);
    assert_eq!(s.len(), 1);
}

#[test]
fn find_best_scans_from_the_end_keeping_strict_improvements() {
    // Ranks 5, 3, 3: the scan starts at index 0, walks from the top
    // down, and switches only on a strictly lower rank, so index 2 wins.
    let mut s = OpenSet::new();
    s.push(snap(0, 5, 0));
    s.push(snap(1, 3, 0));
    s.push(snap(2, 3, 0));
    assert_eq!(s.find_best(), 2);

    // Ranks 3, 3, 5: neither later candidate strictly improves on the
    // initial index 0, which therefore survives the tie.
    let mut t = OpenSet::new();
    t.push(snap(0, 3, 0));
    t.push(snap(1, 3, 0));
    t.push(snap(2, 5, 0));
    assert_eq!(t.find_best(), 0);
}

#[test]
fn find_best_compares_exact_scores_not_just_costs() {
    // id 0: 2 + sqrt(0) = 2; id 1: 0 + sqrt(2) = 1.414...
    let mut s = OpenSet::new();
    s.push(snap(0, 2, 0));
    s.push(snap(1, 0, 2));
    assert_eq!(s.find_best(), 1);
}

#[test]
fn pop_best_removes_what_it_returns() {
    let mut s = OpenSet::new();
    s.push(snap(10, 4, 0));
    s.push(snap(11, 1, 0));
    s.push(snap(12, 9, 0));
    let c = s.pop_best();
    assert_eq!(c.id, 11);
    assert_eq!(s.len(), 2);
    assert!(!s.contains_id(11));
    assert!(s.contains_id(10));
    assert!(s.contains_id(12));
}
