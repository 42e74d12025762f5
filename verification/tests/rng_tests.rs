use nqueen::board::Board;
use nqueen::point::Point;
use nqueen::rng::{Lcg, RandomSource, SystemRandom};

#[test]
fn system_random_stays_below_bound() {
    let mut rng = SystemRandom::new();
    for _ in 0..200 {
        assert!(rng.next_below(5) < 5);
    }
    // With a bound of one the only possible draw is zero.
    for _ in 0..20 {
        assert_eq!(rng.next_below(1), 0);
    }
}

#[test]
fn lcg_is_deterministic() {
    let mut a = Lcg::new(12345);
    let mut b = Lcg::new(12345);
    for _ in 0..100 {
        assert_eq!(a.next_below(97), b.next_below(97));
    }
    let mut c = Lcg::new(54321);
    let first: Vec<usize> = (0..10).map(|_| Lcg::new(7).next_below(13)).collect();
    assert!(first.iter().all(|&x| x < 13));
    let draws: Vec<usize> = (0..50).map(|_| c.next_below(13)).collect();
    assert!(draws.iter().all(|&x| x < 13));
}

#[test]
fn random_point_is_on_the_board() {
    let mut rng = Lcg::new(99);
    for _ in 0..100 {
        let p = Point::random(6, &mut rng);
        assert!(p.row < 6);
        assert!(p.col < 6);
    }
    let mut sys = SystemRandom::new();
    let p = Point::random(1, &mut sys);
    assert_eq!((p.row, p.col), (0, 0));
}

#[test]
fn board_random_point_uses_board_size() {
    let board = Board::new(3);
    let mut rng = Lcg::new(5);
    for _ in 0..50 {
        let p = board.random_point(&mut rng);
        assert!(p.row < 3);
        assert!(p.col < 3);
    }
}

#[test]
fn init_n_queens_places_n_distinct_queens() {
    let mut rng = Lcg::new(2024);
    let board = Board::new(6).init_n_queens(&mut rng, 100000).unwrap();
    assert_eq!(board.queens().len(), 6);
    for i in 0..6 {
        for j in 0..6 {
            if i != j {
                assert_ne!(board.queens()[i], board.queens()[j]);
            }
        }
    }
    assert_eq!(board.n(), 6);
}

#[test]
fn init_queens_with_no_budget_fails() {
    let mut rng = Lcg::new(1);
    let r = Board::new(4).init_queens(&mut rng, 2, 0);
    assert_eq!(r.unwrap_err(), nqueen::board::QueenError::CouldNotPlace);
}

#[test]
fn init_queens_with_zero_target_succeeds_without_budget() {
    let mut rng = Lcg::new(1);
    let board = Board::new(4).init_queens(&mut rng, 0, 0).unwrap();
    assert_eq!(board.queens().len(), 0);
}

#[test]
fn init_queens_keeps_previously_placed_queens() {
    let mut rng = Lcg::new(6);
    let mut board = Board::new(5);
    board.place(&Point::new(3, 3)).unwrap();
    let board = board.init_queens(&mut rng, 2, 100000).unwrap();
    assert_eq!(board.queens().len(), 3);
    assert_eq!(board.queens()[0], Point::new(3, 3));
}

#[test]
fn move_most_checked_on_full_board_reports_no_destination() {
    let mut rng = Lcg::new(3);
    let mut board = Board::new(1);
    board.place(&Point::new(0, 0)).unwrap();
    let r = board.move_most_checked(&mut rng, 50);
    assert_eq!(r.unwrap_err(), nqueen::board::QueenError::NoFreeDestination);
    assert_eq!(board.queens().len(), 1);
    assert_eq!(board.index_of(&Point::new(0, 0)), Some(0));
}

#[test]
fn move_most_checked_keeps_the_piece_count() {
    let mut rng = Lcg::new(8);
    let mut board = Board::new(5);
    board.place(&Point::new(0, 0)).unwrap();
    board.place(&Point::new(0, 1)).unwrap();
    board.place(&Point::new(0, 2)).unwrap();
    let (from, to) = board.move_most_checked(&mut rng, 100000).unwrap();
    assert_eq!(board.queens().len(), 3);
    assert_eq!(board.index_of(&from), None);
    assert!(board.index_of(&to).is_some());
    assert!(to.row < 5 && to.col < 5);
}
