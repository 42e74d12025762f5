use nqueen::board::{Board, QueenError};
use nqueen::point::Point;

#[test]
fn conflicts_symmetry_examples() {
    let a = Point::new(0, 0);
    let b = Point::new(0, 1);
    assert!(Board::checking(&a, &b));
    assert!(Board::checking(&b, &a));
    assert!(!Board::checking(&a, &a));
    let c = Point::new(3, 1);
    assert_eq!(Board::checking(&a, &c), Board::checking(&c, &a));
}

#[test]
fn diagonal_and_straight_conflicts() {
    let a = Point::new(2, 2);
    assert!(Board::checking(&a, &Point::new(2, 7)));
    assert!(Board::checking(&a, &Point::new(5, 2)));
    assert!(Board::checking(&a, &Point::new(4, 4)));
    assert!(Board::checking(&a, &Point::new(0, 4)));
    assert!(!Board::checking(&a, &Point::new(0, 3)));
}

#[test]
fn same_row_pair_counts_one_conflict() {
    let mut board = Board::new(4);
    board.place(&Point::new(0, 0)).unwrap();
    board.place(&Point::new(0, 1)).unwrap();
    assert_eq!(board.checks_count(), 1);
    assert_eq!(board.max_checks(), 1);
}

#[test]
fn diagonal_pair_counts_one_conflict() {
    let mut board = Board::new(4);
    board.place(&Point::new(0, 0)).unwrap();
    board.place(&Point::new(1, 1)).unwrap();
    assert_eq!(board.checks_count(), 1);
}

#[test]
fn three_queens_on_a_diagonal() {
    let mut board = Board::new(4);
    board.place(&Point::new(0, 0)).unwrap();
    board.place(&Point::new(1, 1)).unwrap();
    board.place(&Point::new(2, 2)).unwrap();
    assert_eq!(board.checks_count(), 3);
    assert_eq!(board.max_checks(), 3);
}

#[test]
fn max_checks_is_complete_graph_bound() {
    let mut board = Board::new(8);
    let points = [
        Point::new(0, 0),
        Point::new(1, 2),
        Point::new(2, 4),
        Point::new(3, 6),
        Point::new(4, 1),
    ];
    for (k, p) in points.iter().enumerate() {
        board.place(p).unwrap();
        assert_eq!(board.max_checks(), (k + 1) * k / 2);
        assert!(board.checks_count() <= board.max_checks());
    }
}

#[test]
fn place_on_occupied_square_fails() {
    let mut board = Board::new(4);
    board.place(&Point::new(2, 3)).unwrap();
    assert_eq!(board.place(&Point::new(2, 3)), Err(QueenError::AlreadyOccupied));
    assert_eq!(board.queens().len(), 1);
}

#[test]
fn place_then_capture_restores_board() {
    let mut board = Board::new(5);
    board.place(&Point::new(0, 0)).unwrap();
    board.place(&Point::new(2, 3)).unwrap();
    let queens_before = board.queens().clone();
    let check_data_before = board.check_data().clone();
    let max_before = board.max_checks();
    let count_before = board.checks_count();

    board.place(&Point::new(4, 4)).unwrap();
    board.capture(&Point::new(4, 4));

    assert_eq!(board.queens(), &queens_before);
    assert_eq!(board.check_data(), &check_data_before);
    assert_eq!(board.max_checks(), max_before);
    assert_eq!(board.checks_count(), count_before);
}

#[test]
fn relocate_onto_self_fails() {
    let mut board = Board::new(4);
    let p = Point::new(1, 1);
    board.place(&p).unwrap();
    assert_eq!(board.mov(&p, &p), Err(QueenError::AlreadyOccupied));
    assert_eq!(board.queens().len(), 1);
    assert_eq!(board.index_of(&p), Some(0));
}

#[test]
fn relocate_onto_occupied_square_fails() {
    let mut board = Board::new(4);
    board.place(&Point::new(0, 0)).unwrap();
    board.place(&Point::new(3, 2)).unwrap();
    assert_eq!(board.mov(&Point::new(0, 0), &Point::new(3, 2)), Err(QueenError::AlreadyOccupied));
}

#[test]
fn relocate_moves_the_queen() {
    let mut board = Board::new(4);
    board.place(&Point::new(0, 0)).unwrap();
    board.place(&Point::new(0, 1)).unwrap();
    assert_eq!(board.checks_count(), 1);
    board.mov(&Point::new(0, 1), &Point::new(2, 1)).unwrap();
    assert_eq!(board.index_of(&Point::new(0, 1)), None);
    assert!(board.index_of(&Point::new(2, 1)).is_some());
    assert_eq!(board.queens().len(), 2);
    assert_eq!(board.checks_count(), 0);
}

#[test]
fn capture_removes_the_queen() {
    let mut board = Board::new(4);
    board.place(&Point::new(1, 2)).unwrap();
    board.place(&Point::new(3, 0)).unwrap();
    board.capture(&Point::new(1, 2));
    assert_eq!(board.index_of(&Point::new(1, 2)), None);
    assert_eq!(board.queens().len(), 1);
}

#[test]
fn index_of_returns_first_match() {
    let mut board = Board::new(4);
    board.place(&Point::new(3, 3)).unwrap();
    board.place(&Point::new(1, 0)).unwrap();
    assert_eq!(board.index_of(&Point::new(3, 3)), Some(0));
    assert_eq!(board.index_of(&Point::new(1, 0)), Some(1));
    assert_eq!(board.index_of(&Point::new(0, 0)), None);
}

#[test]
fn most_checked_prefers_last_among_ties() {
    let mut board = Board::new(4);
    board.place(&Point::new(0, 0)).unwrap();
    board.place(&Point::new(0, 1)).unwrap();
    board.place(&Point::new(0, 2)).unwrap();
    // All three share a row: conflict counts are 2, 2, 2; ties resolve to the
    // highest index.
    assert_eq!(board.most_checked(), Some(2));
}

#[test]
fn most_checked_picks_the_maximum() {
    let mut board = Board::new(4);
    board.place(&Point::new(0, 0)).unwrap();
    board.place(&Point::new(0, 1)).unwrap();
    board.place(&Point::new(3, 2)).unwrap();
    // Counts are 1, 1, 0: the tie between the first two resolves to index 1.
    assert_eq!(board.most_checked(), Some(1));
}

#[test]
fn most_checked_on_empty_board() {
    let board = Board::new(4);
    assert_eq!(board.most_checked(), None);
    assert_eq!(board.checks_count(), 0);
    assert_eq!(board.max_checks(), 0);
}

#[test]
fn queens_display_lists_one_based_points() {
    let mut board = Board::new(4);
    board.place(&Point::new(0, 0)).unwrap();
    board.place(&Point::new(1, 2)).unwrap();
    assert_eq!(board.queens_display(), "[(1x1), (2x3)]");
}

#[test]
fn queens_display_is_idempotent() {
    let mut board = Board::new(5);
    board.place(&Point::new(4, 4)).unwrap();
    board.place(&Point::new(2, 0)).unwrap();
    let first = board.queens_display();
    let second = board.queens_display();
    assert_eq!(first, second);
    assert_eq!(first, "[(5x5), (3x1)]");
}

#[test]
fn queens_display_empty() {
    let board = Board::new(3);
    assert_eq!(board.queens_display(), "[]");
}

#[test]
fn duplicate_is_independent() {
    let mut board = Board::new(4);
    board.place(&Point::new(0, 0)).unwrap();
    let copy = board.duplicate();
    board.place(&Point::new(1, 1)).unwrap();
    assert_eq!(copy.queens().len(), 1);
    assert_eq!(board.queens().len(), 2);
    assert_eq!(copy.checks_count(), 0);
}
