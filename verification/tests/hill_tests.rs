use nqueen::board::Board;
use nqueen::hill::{hill_climb_search, lower_heuristic, ClimbOutcome, Descent};
use nqueen::point::Point;
use nqueen::rng::Lcg;

#[test]
fn descend_on_single_queen_short_circuits() {
    let mut rng = Lcg::new(11);
    let mut board = Board::new(4);
    board.place(&Point::new(2, 2)).unwrap();
    let r = lower_heuristic(&mut board, &mut rng, 100, 100).unwrap();
    assert!(matches!(r, Descent::AlreadyOptimal));
    // The board was not touched.
    assert_eq!(board.queens().len(), 1);
    assert_eq!(board.index_of(&Point::new(2, 2)), Some(0));
}

#[test]
fn descend_on_solved_board_short_circuits() {
    let mut rng = Lcg::new(12);
    let mut board = Board::new(4);
    board.place(&Point::new(0, 1)).unwrap();
    board.place(&Point::new(1, 3)).unwrap();
    board.place(&Point::new(2, 0)).unwrap();
    board.place(&Point::new(3, 2)).unwrap();
    assert_eq!(board.checks_count(), 0);
    let r = lower_heuristic(&mut board, &mut rng, 100, 100).unwrap();
    assert!(matches!(r, Descent::AlreadyOptimal));
}

#[test]
fn descend_never_worsens_the_heuristic() {
    let mut rng = Lcg::new(77);
    let mut board = Board::new(5);
    board.place(&Point::new(0, 0)).unwrap();
    board.place(&Point::new(0, 1)).unwrap();
    board.place(&Point::new(0, 2)).unwrap();
    board.place(&Point::new(1, 1)).unwrap();
    let pre_total = board.checks_count();
    match lower_heuristic(&mut board, &mut rng, 10000, 10000) {
        Ok(Descent::Moved { pre, post, from, to }) => {
            assert!(post <= pre);
            assert!(pre <= pre_total);
            assert_eq!(post, board.checks_count());
            assert_ne!(from, to);
            assert!(board.index_of(&to).is_some());
        },
        Ok(Descent::AlreadyOptimal) => panic!("board had conflicts"),
        Err(_) => {},
    }
    assert_eq!(board.queens().len(), 4);
}

#[test]
fn hill_climb_on_solved_board_reports_solved_at_once() {
    let mut rng = Lcg::new(14);
    let mut board = Board::new(4);
    board.place(&Point::new(1, 1)).unwrap();
    let (records, outcome) = hill_climb_search(&mut board, &mut rng, 0, 10, 10);
    assert_eq!(outcome, ClimbOutcome::Solved);
    assert!(records.is_empty());
    assert_eq!(board.checks_count(), 0);
}

#[test]
fn hill_climb_out_of_moves_spends_the_whole_budget() {
    let mut rng = Lcg::new(15);
    let mut board = Board::new(4);
    for col in 0..4 {
        board.place(&Point::new(0, col)).unwrap();
    }
    // Four queens on one row of a 4 by 4 board can never reach zero conflicts
    // in three accepted moves.
    let (records, outcome) = hill_climb_search(&mut board, &mut rng, 3, 10000, 10000);
    match outcome {
        ClimbOutcome::OutOfMoves => {
            assert_eq!(records.len(), 3);
            assert!(board.checks_count() > 0);
        },
        ClimbOutcome::Stuck(_) => assert!(board.checks_count() > 0),
        ClimbOutcome::Solved => panic!("cannot solve within three moves from six conflicts"),
    }
}

#[test]
fn descend_with_no_budget_is_stuck() {
    let mut rng = Lcg::new(13);
    let mut board = Board::new(4);
    board.place(&Point::new(0, 0)).unwrap();
    board.place(&Point::new(0, 1)).unwrap();
    let r = lower_heuristic(&mut board, &mut rng, 0, 100);
    assert_eq!(r.unwrap_err(), nqueen::board::QueenError::StuckInLocalMinimum);
    assert_eq!(board.checks_count(), 1);
}

#[test]
fn hill_climb_records_accepted_moves() {
    let mut rng = Lcg::new(5);
    let mut board = Board::new(5);
    board.place(&Point::new(0, 0)).unwrap();
    board.place(&Point::new(0, 1)).unwrap();
    board.place(&Point::new(2, 2)).unwrap();
    let (records, outcome) = hill_climb_search(&mut board, &mut rng, 200, 10000, 10000);
    assert!(records.len() <= 200);
    for r in &records {
        assert!(r.post <= r.pre);
    }
    if let ClimbOutcome::Solved = outcome {
        assert_eq!(board.checks_count(), 0);
    }
    assert_eq!(board.queens().len(), 3);
}

#[test]
fn hill_climb_solves_three_queens_on_five() {
    // Three queens on a 5 by 5 board always admit a conflict-free placement;
    // the greedy descent finds one from this start with this seed.
    let mut rng = Lcg::new(42);
    let mut board = Board::new(5);
    board.place(&Point::new(0, 0)).unwrap();
    board.place(&Point::new(0, 1)).unwrap();
    board.place(&Point::new(0, 2)).unwrap();
    let (_records, outcome) = hill_climb_search(&mut board, &mut rng, 500, 10000, 10000);
    match outcome {
        ClimbOutcome::Solved => assert_eq!(board.checks_count(), 0),
        other => panic!("expected a solution, search ended with {:?}", other),
    }
}
