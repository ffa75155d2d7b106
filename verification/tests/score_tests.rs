use astar_grid::score::{heuristic_sq, score_lt};

#[test]
fn heuristic_is_the_squared_euclidean_distance() {
    assert_eq!(heuristic_sq((0, 0), (3, 4)), 25);
    assert_eq!(heuristic_sq((10, 10), (10, 13)), 9);
    assert_eq!(heuristic_sq((27, 20), (3, 3)), 24 * 24 + 17 * 17);
}

#[test]
fn heuristic_is_symmetric_and_zero_on_equal_coords() {
    // Concrete instances of the proved law: hsq(a, b) == hsq(b, a) and
    // hsq(a, a) == 0, hence the same for the Euclidean heuristic itself.
    let pairs = [((0, 0), (3, 4)), ((27, 20), (3, 3)), ((1, 7), (9, 2))];
    for (a, b) in pairs {
        assert_eq!(heuristic_sq(a, b), heuristic_sq(b, a));
        assert_eq!(heuristic_sq(a, a), 0);
        assert_eq!(heuristic_sq(b, b), 0);
    }
}

#[test]
fn score_lt_decides_exact_real_comparisons() {
    // 1 + sqrt(0) < 0 + sqrt(4)
    assert!(score_lt(1, 0, 0, 4));
    // 2 + sqrt(0) vs 0 + sqrt(4): an exact tie, strictly-less fails both ways.
    assert!(!score_lt(2, 0, 0, 4));
    assert!(!score_lt(0, 4, 2, 0));
    // 1 + sqrt(0) < 0 + sqrt(2): 1 < 1.414...
    assert!(score_lt(1, 0, 0, 2));
    assert!(!score_lt(0, 2, 1, 0));
    // 2 + sqrt(0) < 0 + sqrt(8): 2 < 2.828...
    assert!(score_lt(2, 0, 0, 8));
    assert!(!score_lt(0, 8, 2, 0));
    // 1 + sqrt(2) < 1 + sqrt(3)
    assert!(score_lt(1, 2, 1, 3));
    assert!(!score_lt(1, 3, 1, 2));
    // Irrational on both sides: 3 + sqrt(2) < 2 + sqrt(8)?
    // 4.414... < 4.828...
    assert!(score_lt(3, 2, 2, 8));
    assert!(!score_lt(2, 8, 3, 2));
    // Equal pairs are never strictly less.
    assert!(!score_lt(5, 7, 5, 7));
}
