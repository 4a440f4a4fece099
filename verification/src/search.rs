//! The move-recommendation engine: random playouts (rollouts) from the
//! current board estimate the expected score of every legal direction,
//! and the direction with the highest summed score wins, ties broken by
//! the fixed enumeration order Left, Right, Up, Down.
//!
//! The scheduling arithmetic, the rollout loop — including its
//! termination — and the argmax selection are verified; a thread pool may
//! drive `rollout_batch` for several directions at once, since every
//! rollout owns a private copy of the board.

use vstd::prelude::*;
use vstd::arithmetic::div_mod::lemma_fundamental_div_mod;
use crate::direction::{GameMove, spec_move_index, spec_move_of_index};
use crate::error::Error;
use crate::game::{Game, GameState, spec_terminal, spec_legal_seq};
use crate::transform::{grid_view, is_square, spec_changed, sat_add64};
use crate::board::{board_sum, all_tiles_valid, valid_board, lemma_board_sum_bound};
use crate::rng::random_below;

verus! {

/// How many rollouts every (direction, worker) pair runs: the target
/// total, divided by the number of pairs and rounded up so that at least
/// the target is reached, and at least one.
pub fn rollouts_per_worker(depth: usize, directions: usize, workers: usize) -> (r: usize)
    requires
        directions >= 1,
        workers >= 1,
        directions * workers <= usize::MAX,
    ensures
        r >= 1,
        r * directions * workers >= depth,
        ({
            let q = depth as int / (directions * workers) as int;
            r == if q == 0 {
                1int
            } else if q * directions * workers == depth {
                q
            } else {
                q + 1
            }
        }),
{
    proof {
        assert(directions * workers >= 1) by (nonlinear_arith)
            requires
                directions >= 1,
                workers >= 1,
        ;
    }
    let unit = directions * workers;
    let q = depth / unit;
    proof {
        lemma_fundamental_div_mod(depth as int, unit as int);
        assert(unit as int * q == q * unit) by (nonlinear_arith);
        assert(q * unit <= depth);
    }
    if q == 0 {
        proof {
            assert(1 * directions * workers == directions * workers) by (nonlinear_arith);
            assert(unit as int * q == 0) by (nonlinear_arith)
                requires
                    q == 0,
            ;
            assert(depth < unit);
        }
        1
    } else if q * unit == depth {
        proof {
            assert(q * directions * workers == q * (directions * workers)) by (nonlinear_arith);
        }
        q
    } else {
        proof {
            assert(q * directions * workers == q * (directions * workers)) by (nonlinear_arith);
            if unit == 1 {
                assert(unit as int * q == q);
                assert(false);
            } else {
                assert(2 * q <= unit * q) by (nonlinear_arith)
                    requires
                        unit >= 2,
                        q >= 0,
                ;
            }
            assert((q + 1) * unit == q * unit + unit) by (nonlinear_arith);
            assert((q + 1) * directions * workers == (q + 1) * (directions * workers))
                by (nonlinear_arith);
        }
        q + 1
    }
}

/// The direction with the greatest summed rollout score among the legal
/// ones; a tie goes to the direction that comes first in the fixed
/// enumeration order.
pub fn best_direction(totals: &Vec<u64>, legal: &Vec<bool>) -> (r: GameMove)
    requires
        totals@.len() == 4,
        legal@.len() == 4,
        exists|d: int| 0 <= d < 4 && legal@[d],
    ensures
        ({
            let j = spec_move_index(r);
            &&& legal@[j]
            &&& forall|d: int| 0 <= d < 4 && legal@[d] ==> totals@[d] <= totals@[j]
            &&& forall|d: int| 0 <= d < 4 && legal@[d] && d < j ==> totals@[d] < totals@[j]
        }),
{
    let mut best: usize = 0;
    let mut found = false;
    let mut d: usize = 0;
    while d < 4
        invariant
            totals@.len() == 4,
            legal@.len() == 4,
            d <= 4,
            found ==> best < d <= 4 && legal@[best as int],
            found ==> forall|t: int| 0 <= t < d && legal@[t] ==> totals@[t] <= totals@[best as int],
            found ==> forall|t: int|
                0 <= t < best && legal@[t] ==> totals@[t] < totals@[best as int],
            !found ==> forall|t: int| 0 <= t < d ==> !legal@[t],
        decreases 4 - d,
    {
        if legal[d] && (!found || totals[d] > totals[best]) {
            best = d;
            found = true;
        }
        d = d + 1;
    }
    GameMove::from_index(best)
}

/// Plays one random playout: builds a fresh game from a copy of the
/// board, applies the forced first direction, then repeatedly applies a
/// uniformly random legal direction until no legal move remains, and
/// returns the final score.  Construction fails exactly as
/// `Game::from_existing` does.
pub fn rollout(board: &Vec<Vec<u64>>, first_move: GameMove) -> (r: Result<u64, Error>)
    ensures
        grid_view(board@).len() < 4 ==> r == Err::<u64, Error>(Error::InvalidSize),
        grid_view(board@).len() >= 4 && !is_square(grid_view(board@)) ==> r == Err::<u64, Error>(
            Error::InvalidBoard,
        ),
        grid_view(board@).len() >= 4 && is_square(grid_view(board@)) && !all_tiles_valid(
            grid_view(board@),
        ) ==> r == Err::<u64, Error>(Error::InvalidValue),
        valid_board(grid_view(board@)) ==> r is Ok,
{
    let mut game = match Game::from_existing(board) {
        Ok(g) => g,
        Err(e) => {
            return Err(e);
        },
    };
    let _ = game.make_move(first_move);
    while !game.is_terminal()
        invariant
            game.wf(),
        decreases game.side() * game.side() * (u64::MAX as int) + 1 - board_sum(game.grid()),
    {
        proof {
            game.lemma_wf_board();
            lemma_board_sum_bound(game.grid());
        }
        let legal = game.legal_moves();
        let pick = random_below(legal.len());
        let m = legal[pick];
        let ghost pre = game;
        let _ = game.make_move(m);
        proof {
            assert(spec_changed(pre.grid(), m));
            assert(board_sum(game.grid()) >= board_sum(pre.grid()) + 2);
            game.lemma_wf_board();
            lemma_board_sum_bound(game.grid());
        }
    }
    Ok(game.score())
}

/// Runs `count` rollouts with the same forced first direction and
/// returns their summed final scores, saturated at the largest `u64`.
/// Construction fails exactly as `Game::from_existing` does.
pub fn rollout_batch(board: &Vec<Vec<u64>>, first_move: GameMove, count: usize) -> (r: Result<
    u64,
    Error,
>)
    ensures
        grid_view(board@).len() < 4 ==> r == Err::<u64, Error>(Error::InvalidSize),
        grid_view(board@).len() >= 4 && !is_square(grid_view(board@)) ==> r == Err::<u64, Error>(
            Error::InvalidBoard,
        ),
        grid_view(board@).len() >= 4 && is_square(grid_view(board@)) && !all_tiles_valid(
            grid_view(board@),
        ) ==> r == Err::<u64, Error>(Error::InvalidValue),
        valid_board(grid_view(board@)) ==> r is Ok,
{
    match Game::from_existing(board) {
        Ok(_) => {},
        Err(e) => {
            return Err(e);
        },
    }
    let mut total: u64 = 0;
    let mut k: usize = 0;
    while k < count
        invariant
            valid_board(grid_view(board@)),
        decreases count - k,
    {
        let score = match rollout(board, first_move) {
            Ok(s) => s,
            Err(_) => {
                proof {
                    assert(false);
                }
                0
            },
        };
        total = sat_add64(total, score);
        k = k + 1;
    }
    Ok(total)
}

impl Game {
    /// Recommends the move with the highest expected cumulative score,
    /// estimated by at least `depth` random rollouts spread evenly over
    /// the legal directions.  With no legal move the search fails with
    /// `NoValidMove`; with exactly one legal move that move is returned
    /// at once, without any rollout.
    pub fn find_best_move(&self, depth: usize) -> (r: Result<GameMove, Error>)
        requires
            self.wf(),
        ensures
            spec_terminal(self.grid()) <==> r == Err::<GameMove, Error>(Error::NoValidMove),
            !spec_terminal(self.grid()) ==> (r matches Ok(m) && spec_changed(self.grid(), m)),
            forall|m: GameMove|
                spec_legal_seq(self.grid()).len() == 1 && spec_changed(self.grid(), m) ==> r
                    == Ok::<GameMove, Error>(m),
    {
        let legal = self.legal_moves();
        if legal.len() == 0 {
            return Err(Error::NoValidMove);
        }
        if legal.len() == 1 {
            proof {
                let s = spec_legal_seq(self.grid());
                assert forall|m: GameMove| s.len() == 1 && spec_changed(self.grid(), m) implies s[0]
                    == m by {
                    match m {
                        GameMove::Left => {
                            assert(s[0] == GameMove::Left);
                        },
                        GameMove::Right => {
                            if spec_changed(self.grid(), GameMove::Left) {
                                assert(s.len() >= 2);
                            }
                            assert(s[0] == GameMove::Right);
                        },
                        GameMove::Up => {
                            if spec_changed(self.grid(), GameMove::Left) || spec_changed(
                                self.grid(),
                                GameMove::Right,
                            ) {
                                assert(s.len() >= 2);
                            }
                            assert(s[0] == GameMove::Up);
                        },
                        GameMove::Down => {
                            if spec_changed(self.grid(), GameMove::Left) || spec_changed(
                                self.grid(),
                                GameMove::Right,
                            ) || spec_changed(self.grid(), GameMove::Up) {
                                assert(s.len() >= 2);
                            }
                            assert(s[0] == GameMove::Down);
                        },
                    }
                }
            }
            return Ok(legal[0]);
        }
        let workers: usize = 1;
        let per_pair = rollouts_per_worker(depth, legal.len(), workers);
        let mut flags: Vec<bool> = Vec::new();
        let mut d: usize = 0;
        while d < 4
            invariant
                self.wf(),
                d <= 4,
                flags@.len() == d,
                forall|t: int|
                    0 <= t < d ==> #[trigger] flags@[t] == spec_changed(
                        self.grid(),
                        spec_move_of_index(t),
                    ),
            decreases 4 - d,
        {
            flags.push(self.legal_flag(d));
            d = d + 1;
        }
        let mut totals: Vec<u64> = Vec::new();
        let mut d: usize = 0;
        while d < 4
            invariant
                d <= 4,
                totals@.len() == d,
            decreases 4 - d,
        {
            totals.push(0);
            d = d + 1;
        }
        let mut k: usize = 0;
        while k < legal.len()
            invariant
                self.wf(),
                legal@ == spec_legal_seq(self.grid()),
                forall|t: int| 0 <= t < legal@.len() ==> spec_changed(self.grid(), #[trigger] legal@[t]),
                totals@.len() == 4,
                flags@.len() == 4,
                forall|t: int|
                    0 <= t < 4 ==> #[trigger] flags@[t] == spec_changed(
                        self.grid(),
                        spec_move_of_index(t),
                    ),
                k <= legal@.len(),
            decreases legal@.len() - k,
        {
            let m = legal[k];
            proof {
                self.lemma_wf_board();
            }
            let batch = match rollout_batch(self.board(), m, per_pair) {
                Ok(v) => v,
                Err(_) => {
                    proof {
                        assert(false);
                    }
                    0
                },
            };
            let idx = m.index();
            totals.set(idx, batch);
            k = k + 1;
        }
        proof {
            assert(spec_changed(self.grid(), legal@[0]));
            let j = spec_move_index(legal@[0]);
            assert(spec_move_of_index(j) == legal@[0]) by {
                match legal@[0] {
                    GameMove::Left => {},
                    GameMove::Right => {},
                    GameMove::Up => {},
                    GameMove::Down => {},
                }
            }
            assert(0 <= j < 4 && flags@[j]);
        }
        let best = best_direction(&totals, &flags);
        proof {
            let j = spec_move_index(best);
            assert(flags@[j]);
            assert(spec_move_of_index(j) == best) by {
                match best {
                    GameMove::Left => {},
                    GameMove::Right => {},
                    GameMove::Up => {},
                    GameMove::Down => {},
                }
            }
            assert(spec_changed(self.grid(), best));
        }
        Ok(best)
    }
}

} // verus!
