//! Greedy hill-climbing descent: repeatedly relocate the most-threatened
//! queen, accepting a move only when it does not worsen the total conflict
//! count, and reverting it otherwise.

use vstd::prelude::*;

use crate::board::{Board, QueenError, same_state};
use crate::point::Point;
use crate::rng::RandomSource;

verus! {

broadcast use vstd::multiset::group_multiset_axioms;

/// The result of one descent step.
#[derive(Debug, Clone, Copy, PartialEq, Eq, Structural)]
pub enum Descent {
    /// The board already has zero conflicts; nothing was moved.
    AlreadyOptimal,
    /// The most-threatened queen moved from `from` to `to`, taking the total
    /// conflict count from `pre` to `post`, with `post <= pre`.
    Moved { pre: usize, post: usize, from: Point, to: Point },
}

/// One accepted move of a hill-climbing run.
#[derive(Debug, Clone, Copy, PartialEq, Eq, Structural)]
pub struct MoveRecord {
    pub pre: usize,
    pub post: usize,
    pub from: Point,
    pub to: Point,
}

/// How a hill-climbing run ended.
#[derive(Debug, Clone, Copy, PartialEq, Eq, Structural)]
pub enum ClimbOutcome {
    /// A zero-conflict board was reached.
    Solved,
    /// A descent step failed; the run stops with the failure it reported.
    Stuck(QueenError),
    /// The move budget ran out before reaching zero conflicts.
    OutOfMoves,
}

/// Move the most-threatened queen only if the heuristic shows a value that is
/// no worse; revert and retry otherwise, up to `max_attempts` times. A board
/// with zero conflicts is recognized as already optimal and left untouched.
pub fn lower_heuristic<R: RandomSource>(
    board: &mut Board,
    rng: &mut R,
    max_attempts: usize,
    relocation_attempts: usize,
) -> (r: Result<Descent, QueenError>)
    requires
        old(board).wf(),
        old(board).side() >= 1,
        old(board).pieces().len() >= 1,
    ensures
        final(board).wf(),
        final(board).side() == old(board).side(),
        final(board).pieces().len() == old(board).pieces().len(),
        match r {
            Ok(d) => match d {
                Descent::AlreadyOptimal => old(board).total_checks() == 0 && same_state(
                    *final(board),
                    *old(board),
                ),
                Descent::Moved { pre, post, from, to } => {
                    &&& old(board).total_checks() > 0
                    &&& pre == old(board).total_checks()
                    &&& post == final(board).total_checks()
                    &&& post <= pre
                    &&& old(board).pieces().contains(from)
                    &&& !old(board).pieces().contains(to)
                    &&& final(board).pieces().to_multiset() == old(board).pieces().to_multiset()
                        .remove(from).insert(to)
                },
            },
            Err(e) => {
                &&& (e == QueenError::NoFreeDestination || e == QueenError::StuckInLocalMinimum)
                &&& old(board).total_checks() > 0
                &&& final(board).pieces().to_multiset() == old(board).pieces().to_multiset()
                &&& final(board).total_checks() == old(board).total_checks()
            },
        },
{
    if board.checks_count() == 0 {
        return Ok(Descent::AlreadyOptimal);
    }
    let mut attempts: usize = 0;
    while attempts < max_attempts
        invariant
            board.wf(),
            old(board).wf(),
            board.side() == old(board).side(),
            board.side() >= 1,
            board.pieces().len() == old(board).pieces().len(),
            board.pieces().len() >= 1,
            board.pieces().to_multiset() == old(board).pieces().to_multiset(),
            board.total_checks() == old(board).total_checks(),
            old(board).total_checks() > 0,
            attempts <= max_attempts,
        decreases max_attempts - attempts,
    {
        let pre_h = board.checks_count();
        let ghost snap = *board;
        let mv = board.move_most_checked(rng, relocation_attempts);
        match mv {
            Err(e) => {
                return Err(e);
            },
            Ok(mvp) => {
                let from = mvp.0;
                let to = mvp.1;
                let ghost i = choose|i: int|
                    snap.is_most_checked(i) && snap.pieces()[i] == from && board.pieces()
                        == snap.pieces().remove(i).push(to);
                proof {
                    snap.pieces().to_multiset_ensures();
                    snap.pieces().remove(i).to_multiset_ensures();
                    assert(board.pieces().to_multiset() == snap.pieces().to_multiset().remove(
                        from,
                    ).insert(to));
                }
                let post_h = board.checks_count();
                if pre_h < post_h {
                    // Strictly worse: move the queen back and try again.
                    let ghost cur = *board;
                    proof {
                        assert(board.pieces().contains(to)) by {
                            assert(board.pieces().last() == to);
                        }
                        assert(from.row < board.side() && from.col < board.side()) by {
                            assert(snap.pieces()[i].row < snap.side());
                        }
                    }
                    let reverted = board.mov(&to, &from);
                    proof {
                        crate::board::lemma_mov_target_free(snap.pieces(), i, to, from);
                        assert(reverted is Ok);
                        let j = choose|j: int|
                            0 <= j < cur.pieces().len() && cur.pieces()[j] == to && board.pieces()
                                == cur.pieces().remove(j).push(from);
                        cur.pieces().to_multiset_ensures();
                        cur.pieces().remove(j).to_multiset_ensures();
                        assert(board.pieces().to_multiset() =~= snap.pieces().to_multiset());
                        crate::board::lemma_total_checks_permutation(*board, *old(board));
                    }
                } else {
                    proof {
                        snap.pieces().to_multiset_ensures();
                        assert(old(board).pieces().contains(from)) by {
                            assert(snap.pieces().contains(from)) by {
                                assert(snap.pieces()[i] == from);
                            }
                            assert(old(board).pieces().to_multiset().count(from) > 0);
                            old(board).pieces().to_multiset_ensures();
                        }
                        assert(!old(board).pieces().contains(to)) by {
                            assert(old(board).pieces().to_multiset().count(to) == snap.pieces()
                                .to_multiset().count(to));
                            assert(!snap.pieces().contains(to));
                            old(board).pieces().to_multiset_ensures();
                        }
                    }
                    return Ok(Descent::Moved { pre: pre_h, post: post_h, from, to });
                }
            },
        }
        attempts += 1;
    }
    Err(QueenError::StuckInLocalMinimum)
}

/// Run the descent until the board is solved, a step reports failure, or the
/// move budget runs out; every accepted move is recorded in order.
pub fn hill_climb_search<R: RandomSource>(
    board: &mut Board,
    rng: &mut R,
    max_moves: usize,
    max_attempts: usize,
    relocation_attempts: usize,
) -> (r: (Vec<MoveRecord>, ClimbOutcome))
    requires
        old(board).wf(),
        old(board).side() >= 1,
        old(board).pieces().len() >= 1,
    ensures
        final(board).wf(),
        final(board).side() == old(board).side(),
        final(board).pieces().len() == old(board).pieces().len(),
        r.0@.len() <= max_moves,
        forall|k: int| 0 <= k < r.0@.len() ==> (#[trigger] r.0@[k]).post <= r.0@[k].pre,
        r.0@.len() >= 1 ==> r.0@[0].pre == old(board).total_checks(),
        forall|k: int| 0 <= k < r.0@.len() - 1 ==> (#[trigger] r.0@[k + 1]).pre == r.0@[k].post,
        r.0@.len() >= 1 ==> r.0@[r.0@.len() - 1].post == final(board).total_checks(),
        r.0@.len() == 0 ==> final(board).total_checks() == old(board).total_checks(),
        r.1 == ClimbOutcome::Solved <==> final(board).total_checks() == 0,
        old(board).total_checks() == 0 ==> r.1 == ClimbOutcome::Solved,
        r.1 == ClimbOutcome::OutOfMoves ==> r.0@.len() == max_moves,
        match r.1 {
            ClimbOutcome::Stuck(e) => e == QueenError::NoFreeDestination || e
                == QueenError::StuckInLocalMinimum,
            _ => true,
        },
{
    let mut records: Vec<MoveRecord> = Vec::new();
    if board.checks_count() == 0 {
        return (records, ClimbOutcome::Solved);
    }
    let mut moves: usize = 0;
    while moves < max_moves
        invariant
            board.wf(),
            board.side() == old(board).side(),
            board.side() >= 1,
            board.pieces().len() == old(board).pieces().len(),
            board.pieces().len() >= 1,
            board.total_checks() > 0,
            old(board).total_checks() > 0,
            records@.len() == moves,
            moves <= max_moves,
            forall|k: int| 0 <= k < records@.len() ==> (#[trigger] records@[k]).post
                <= records@[k].pre,
            records@.len() >= 1 ==> records@[0].pre == old(board).total_checks(),
            forall|k: int| 0 <= k < records@.len() - 1 ==> (#[trigger] records@[k + 1]).pre
                == records@[k].post,
            records@.len() >= 1 ==> records@[records@.len() - 1].post == board.total_checks(),
            records@.len() == 0 ==> board.total_checks() == old(board).total_checks(),
        decreases max_moves - moves,
    {
        let step = lower_heuristic(board, rng, max_attempts, relocation_attempts);
        match step {
            Err(e) => {
                return (records, ClimbOutcome::Stuck(e));
            },
            Ok(Descent::AlreadyOptimal) => {
                return (records, ClimbOutcome::Solved);
            },
            Ok(Descent::Moved { pre, post, from, to }) => {
                records.push(MoveRecord { pre, post, from, to });
                if post == 0 {
                    return (records, ClimbOutcome::Solved);
                }
            },
        }
        moves += 1;
    }
    (records, ClimbOutcome::OutOfMoves)
}

} // verus!
