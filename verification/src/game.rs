//! The game state: the board, the score, and the cached per-direction
//! transition results, recomputed in full after every change of the board.

use vstd::prelude::*;
use crate::direction::{GameMove, spec_move_of_index};
use crate::error::Error;
use crate::transform::{
    WINNING_TILE, sat64, grid_view, is_square, spec_transform, spec_delta, spec_changed,
    board_transform, sat_add64,
};
use crate::board::{
    board_sum, board_tiles, has_empty_cell, has_winning_tile, is_power_of_two, is_tile,
    all_tiles_valid, valid_board, lemma_transform_shape, lemma_transform_sum, lemma_transform_valid,
    lemma_transform_keeps_winning, lemma_changed_has_empty, lemma_delta_nonneg,
    lemma_board_cell_update, lemma_single_tile_not_terminal, lemma_board_all_zero,
};
use crate::rng::random_below;

verus! {

/// Whether the game still accepts moves.
#[derive(Copy, Clone, Debug, PartialEq, Eq, Hash, Structural)]
pub enum GameState {
    /// The game is in progress: some direction is legal.
    InProgress,
    /// The game is over: no direction is legal.
    GameOver,
}

/// The overall result of a game.
#[derive(Copy, Clone, Debug, PartialEq, Eq, Hash, Structural)]
pub enum GameResult {
    /// Not decided yet: the winning tile has not been reached.
    Pending,
    /// The winning tile was reached; a one-way latch, play may continue.
    Victory,
    /// The game ended without reaching the winning tile.
    Loss,
}

/// What a successful move reports: consumers can tell an ordinary move, a
/// move that first reaches the winning tile, and a move after which no
/// legal move remains apart.
#[derive(Copy, Clone, Debug, PartialEq, Eq, Hash, Structural)]
pub enum MoveOutcome {
    /// The move was applied; play continues, no new victory.
    Moved,
    /// The move was applied and the winning tile was reached for the
    /// first time.
    Victory,
    /// The move was applied and no legal move remains.
    Terminal,
}

/// A board with no legal move in any direction.
pub open spec fn spec_terminal(b: Seq<Seq<u64>>) -> bool {
    forall|m: GameMove| !(#[trigger] spec_changed(b, m))
}

/// The currently legal directions, in the fixed enumeration order.
pub open spec fn spec_legal_seq(b: Seq<Seq<u64>>) -> Seq<GameMove> {
    (if spec_changed(b, GameMove::Left) {
        seq![GameMove::Left]
    } else {
        Seq::<GameMove>::empty()
    }) + (if spec_changed(b, GameMove::Right) {
        seq![GameMove::Right]
    } else {
        Seq::<GameMove>::empty()
    }) + (if spec_changed(b, GameMove::Up) {
        seq![GameMove::Up]
    } else {
        Seq::<GameMove>::empty()
    }) + (if spec_changed(b, GameMove::Down) {
        seq![GameMove::Down]
    } else {
        Seq::<GameMove>::empty()
    })
}

/// The result that the cache recomputation assigns, given the previous
/// result and the new board.
pub open spec fn spec_next_result(prev: GameResult, b: Seq<Seq<u64>>) -> GameResult {
    match prev {
        GameResult::Pending => if has_winning_tile(b) {
            GameResult::Victory
        } else if spec_terminal(b) {
            GameResult::Loss
        } else {
            GameResult::Pending
        },
        r => r,
    }
}

/// The game of sliding and merging tiles on a square board, together
/// with the cached transition results of all four directions.
#[derive(Debug)]
pub struct Game {
    /// The board: `0` for empty cells, powers of two for tiles.
    board: Vec<Vec<u64>>,
    /// The score accumulated so far.
    score: u64,
    /// The score delta of each direction, keyed by the move index.
    score_next: Vec<u64>,
    /// The legality of each direction, keyed by the move index.
    moves: Vec<bool>,
    /// The board after each direction, keyed by the move index.
    moves_next: Vec<Vec<Vec<u64>>>,
    /// Whether any direction is still legal.
    state: GameState,
    /// The result latch: pending, victory, or loss.
    result: GameResult,
}

impl Game {
    /// The board as a mathematical grid.
    pub closed spec fn grid(self) -> Seq<Seq<u64>> {
        grid_view(self.board@)
    }

    /// The side length of the board.
    pub closed spec fn side(self) -> int {
        self.board@.len() as int
    }

    /// The accumulated score.
    pub closed spec fn spec_score(self) -> u64 {
        self.score
    }

    /// The cached state flag.
    pub closed spec fn spec_state(self) -> GameState {
        self.state
    }

    /// The cached result latch.
    pub closed spec fn spec_result(self) -> GameResult {
        self.result
    }

    /// Well-formedness: the board is square of side at least four with
    /// valid cells, every cached transition result agrees exactly with
    /// the transition engine on the current board, the state flag agrees
    /// with terminality, and the result latch is consistent with the
    /// board.
    pub closed spec fn wf(self) -> bool {
        &&& self.side() >= 4
        &&& is_square(self.grid())
        &&& all_tiles_valid(self.grid())
        &&& self.score_next@.len() == 4
        &&& self.moves@.len() == 4
        &&& self.moves_next@.len() == 4
        &&& forall|d: int|
            0 <= d < 4 ==> grid_view(#[trigger] self.moves_next@[d]@) == spec_transform(
                self.grid(),
                spec_move_of_index(d),
            )
        &&& forall|d: int|
            0 <= d < 4 ==> #[trigger] self.score_next@[d] == sat64(
                spec_delta(self.grid(), spec_move_of_index(d)),
            )
        &&& forall|d: int|
            0 <= d < 4 ==> #[trigger] self.moves@[d] == spec_changed(
                self.grid(),
                spec_move_of_index(d),
            )
        &&& (self.state == GameState::GameOver <==> spec_terminal(self.grid()))
        &&& (self.result == GameResult::Pending ==> !has_winning_tile(self.grid())
            && self.state == GameState::InProgress)
        &&& (self.result == GameResult::Loss ==> self.state == GameState::GameOver
            && !has_winning_tile(self.grid()))
        &&& (self.result == GameResult::Victory ==> has_winning_tile(self.grid()))
    }

    /// The board of a well-formed game is square, of side at least four,
    /// with every cell valid.
    pub proof fn lemma_wf_board(self)
        requires
            self.wf(),
        ensures
            is_square(self.grid()),
            self.grid().len() == self.side(),
            self.side() >= 4,
            all_tiles_valid(self.grid()),
            valid_board(self.grid()),
    {
    }

    /// Whether the direction with the given move index is currently
    /// legal.
    pub(crate) fn legal_flag(&self, d: usize) -> (r: bool)
        requires
            self.wf(),
            d < 4,
        ensures
            r == spec_changed(self.grid(), spec_move_of_index(d as int)),
    {
        self.moves[d]
    }

    /// Returns a reference to the board.
    pub fn board(&self) -> (r: &Vec<Vec<u64>>)
        ensures
            grid_view(r@) == self.grid(),
            r@.len() == self.side(),
    {
        &self.board
    }

    /// Returns the score of the game.
    pub fn score(&self) -> (r: u64)
        ensures
            r == self.spec_score(),
    {
        self.score
    }

    /// Returns the side length of the board.
    pub fn size(&self) -> (r: usize)
        ensures
            r == self.side(),
    {
        self.board.len()
    }

    /// Returns the state of the game: over exactly when no direction is
    /// legal.
    pub fn state(&self) -> (r: GameState)
        requires
            self.wf(),
        ensures
            r == self.spec_state(),
            r == GameState::GameOver <==> spec_terminal(self.grid()),
    {
        self.state
    }

    /// Returns the result of the game.
    pub fn result(&self) -> (r: GameResult)
        requires
            self.wf(),
        ensures
            r == self.spec_result(),
            r == GameResult::Victory ==> has_winning_tile(self.grid()),
            self.spec_result() == GameResult::Pending ==> !has_winning_tile(self.grid()),
    {
        self.result
    }

    /// Whether the game is over: no direction is legal.
    pub fn is_terminal(&self) -> (r: bool)
        requires
            self.wf(),
        ensures
            r == spec_terminal(self.grid()),
            r == (self.spec_state() == GameState::GameOver),
    {
        match self.state {
            GameState::GameOver => true,
            GameState::InProgress => false,
        }
    }

    /// Whether the winning tile has been reached; once true, true for the
    /// rest of the game.
    pub fn is_won(&self) -> (r: bool)
        requires
            self.wf(),
        ensures
            r == (self.spec_result() == GameResult::Victory),
    {
        match self.result {
            GameResult::Victory => true,
            _ => false,
        }
    }

    /// Returns the currently legal directions, in the order Left, Right,
    /// Up, Down.  The sequence is empty exactly when the game is over.
    pub fn legal_moves(&self) -> (r: Vec<GameMove>)
        requires
            self.wf(),
        ensures
            r@ == spec_legal_seq(self.grid()),
            r@.len() == 0 <==> spec_terminal(self.grid()),
            forall|k: int| 0 <= k < r@.len() ==> spec_changed(self.grid(), #[trigger] r@[k]),
            forall|m: GameMove| spec_changed(self.grid(), m) ==> #[trigger] r@.contains(m),
    {
        let mut out: Vec<GameMove> = Vec::new();
        if self.moves[0] {
            out.push(GameMove::Left);
        }
        if self.moves[1] {
            out.push(GameMove::Right);
        }
        if self.moves[2] {
            out.push(GameMove::Up);
        }
        if self.moves[3] {
            out.push(GameMove::Down);
        }
        proof {
            assert(spec_move_of_index(0) == GameMove::Left);
            assert(spec_move_of_index(1) == GameMove::Right);
            assert(spec_move_of_index(2) == GameMove::Up);
            assert(spec_move_of_index(3) == GameMove::Down);
            assert(out@ =~= spec_legal_seq(self.grid()));
            assert forall|k: int| 0 <= k < out@.len() implies spec_changed(
                self.grid(),
                #[trigger] out@[k],
            ) by {
                let b = self.grid();
                let s = spec_legal_seq(b);
                assert(s[k] == out@[k]);
            }
            if out@.len() == 0 {
                assert forall|m: GameMove| !(#[trigger] spec_changed(self.grid(), m)) by {
                    match m {
                        GameMove::Left => {},
                        GameMove::Right => {},
                        GameMove::Up => {},
                        GameMove::Down => {},
                    }
                }
            } else {
                assert(spec_changed(self.grid(), out@[0]));
            }
            let b = self.grid();
            let s = spec_legal_seq(b);
            assert forall|m: GameMove| spec_changed(b, m) implies #[trigger] s.contains(m) by {
                match m {
                    GameMove::Left => {
                        assert(s[0] == GameMove::Left);
                    },
                    GameMove::Right => {
                        let pos: int = if spec_changed(b, GameMove::Left) {
                            1
                        } else {
                            0
                        };
                        assert(s[pos] == GameMove::Right);
                    },
                    GameMove::Up => {
                        let pos: int = (if spec_changed(b, GameMove::Left) {
                            1int
                        } else {
                            0int
                        }) + (if spec_changed(b, GameMove::Right) {
                            1int
                        } else {
                            0int
                        });
                        assert(s[pos] == GameMove::Up);
                    },
                    GameMove::Down => {
                        assert(s[s.len() - 1] == GameMove::Down);
                    },
                }
            }
        }
        out
    }
}

impl Game {
    /// Recomputes the cached transition results of all four directions
    /// from the current board, then the state flag and the result latch.
    /// Recomputing everything on every change keeps one simple invariant:
    /// the cache always agrees with the board.
    fn refresh_transitions(&mut self)
        requires
            old(self).side() >= 4,
            is_square(old(self).grid()),
            all_tiles_valid(old(self).grid()),
            old(self).score_next@.len() == 4,
            old(self).moves@.len() == 4,
            old(self).moves_next@.len() == 4,
            old(self).spec_state() == GameState::InProgress,
            old(self).spec_result() == GameResult::Pending || (old(self).spec_result()
                == GameResult::Victory && has_winning_tile(old(self).grid())),
        ensures
            final(self).wf(),
            final(self).grid() == old(self).grid(),
            final(self).side() == old(self).side(),
            final(self).spec_score() == old(self).spec_score(),
            final(self).spec_state() == (if spec_terminal(old(self).grid()) {
                GameState::GameOver
            } else {
                GameState::InProgress
            }),
            final(self).spec_result() == spec_next_result(
                old(self).spec_result(),
                old(self).grid(),
            ),
    {
        let mut d: usize = 0;
        while d < 4
            invariant
                self.board@ == old(self).board@,
                self.score == old(self).score,
                self.state == old(self).state,
                self.result == old(self).result,
                self.score_next@.len() == 4,
                self.moves@.len() == 4,
                self.moves_next@.len() == 4,
                d <= 4,
                is_square(self.grid()),
                forall|t: int|
                    0 <= t < d ==> grid_view(#[trigger] self.moves_next@[t]@) == spec_transform(
                        self.grid(),
                        spec_move_of_index(t),
                    ),
                forall|t: int|
                    0 <= t < d ==> #[trigger] self.score_next@[t] == sat64(
                        spec_delta(self.grid(), spec_move_of_index(t)),
                    ),
                forall|t: int|
                    0 <= t < d ==> #[trigger] self.moves@[t] == spec_changed(
                        self.grid(),
                        spec_move_of_index(t),
                    ),
            decreases 4 - d,
        {
            let m = GameMove::from_index(d);
            let res = board_transform(&self.board, m);
            self.moves_next.set(d, res.0);
            self.score_next.set(d, res.1);
            self.moves.set(d, res.2);
            d = d + 1;
        }
        let any = self.moves[0] || self.moves[1] || self.moves[2] || self.moves[3];
        proof {
            if !any {
                assert forall|m: GameMove| !(#[trigger] spec_changed(self.grid(), m)) by {
                    match m {
                        GameMove::Left => {
                            assert(self.moves@[0] == spec_changed(
                                self.grid(),
                                spec_move_of_index(0),
                            ));
                        },
                        GameMove::Right => {
                            assert(self.moves@[1] == spec_changed(
                                self.grid(),
                                spec_move_of_index(1),
                            ));
                        },
                        GameMove::Up => {
                            assert(self.moves@[2] == spec_changed(
                                self.grid(),
                                spec_move_of_index(2),
                            ));
                        },
                        GameMove::Down => {
                            assert(self.moves@[3] == spec_changed(
                                self.grid(),
                                spec_move_of_index(3),
                            ));
                        },
                    }
                }
            } else {
                assert(!spec_terminal(self.grid())) by {
                    if self.moves@[0] {
                        assert(spec_changed(self.grid(), spec_move_of_index(0)));
                    } else if self.moves@[1] {
                        assert(spec_changed(self.grid(), spec_move_of_index(1)));
                    } else if self.moves@[2] {
                        assert(spec_changed(self.grid(), spec_move_of_index(2)));
                    } else {
                        assert(spec_changed(self.grid(), spec_move_of_index(3)));
                    }
                }
            }
        }
        if !any {
            self.state = GameState::GameOver;
        }
        match self.result {
            GameResult::Pending => {
                if board_has_winning(&self.board) {
                    self.result = GameResult::Victory;
                } else {
                    match self.state {
                        GameState::GameOver => {
                            self.result = GameResult::Loss;
                        },
                        GameState::InProgress => {},
                    }
                }
            },
            _ => {},
        }
    }

    /// Collects the positions of all empty cells, row by row.
    fn empty_cells(&self) -> (r: Vec<(usize, usize)>)
        requires
            is_square(self.grid()),
        ensures
            forall|k: int|
                0 <= k < r@.len() ==> 0 <= (#[trigger] r@[k]).0 < self.side() && 0 <= r@[k].1
                    < self.side() && self.grid()[r@[k].0 as int][r@[k].1 as int] == 0,
            has_empty_cell(self.grid()) ==> r@.len() >= 1,
    {
        let b = &self.board;
        let n = b.len();
        let mut out: Vec<(usize, usize)> = Vec::new();
        let mut i: usize = 0;
        while i < n
            invariant
                n == b@.len(),
                i <= n,
                is_square(grid_view(b@)),
                forall|k: int|
                    0 <= k < out@.len() ==> 0 <= (#[trigger] out@[k]).0 < n && 0 <= out@[k].1 < n
                        && grid_view(b@)[out@[k].0 as int][out@[k].1 as int] == 0,
                forall|i2: int, j2: int|
                    0 <= i2 < i && 0 <= j2 < n && grid_view(b@)[i2][j2] == 0 ==> exists|k: int|
                        0 <= k < out@.len() && (#[trigger] out@[k]).0 == i2 && out@[k].1 == j2,
            decreases n - i,
        {
            let row = &b[i];
            proof {
                assert(grid_view(b@)[i as int] == b@[i as int]@);
                assert(grid_view(b@)[i as int].len() == n);
            }
            let mut j: usize = 0;
            while j < n
                invariant
                    n == b@.len(),
                    i < n,
                    j <= n,
                    is_square(grid_view(b@)),
                    row@ == grid_view(b@)[i as int],
                    row@.len() == n,
                    forall|k: int|
                        0 <= k < out@.len() ==> 0 <= (#[trigger] out@[k]).0 < n && 0 <= out@[k].1
                            < n && grid_view(b@)[out@[k].0 as int][out@[k].1 as int] == 0,
                    forall|i2: int, j2: int|
                        0 <= i2 < i && 0 <= j2 < n && grid_view(b@)[i2][j2] == 0 ==> exists|k: int|
                            0 <= k < out@.len() && (#[trigger] out@[k]).0 == i2 && out@[k].1 == j2,
                    forall|j2: int|
                        0 <= j2 < j && grid_view(b@)[i as int][j2] == 0 ==> exists|k: int|
                            0 <= k < out@.len() && (#[trigger] out@[k]).0 == i as int && out@[k].1
                                == j2,
                decreases n - j,
            {
                if row[j] == 0 {
                    let ghost before = out@;
                    out.push((i, j));
                    proof {
                        assert(out@[out@.len() - 1] == (i, j));
                        assert forall|k: int|
                            0 <= k < before.len() implies out@[k] == before[k] by {}
                    }
                }
                j = j + 1;
            }
            i = i + 1;
        }
        proof {
            if has_empty_cell(grid_view(b@)) {
                let (i2, j2) = choose|i2: int, j2: int|
                    0 <= i2 < grid_view(b@).len() && 0 <= j2 < grid_view(b@)[i2].len()
                        && grid_view(b@)[i2][j2] == 0;
                assert(exists|k: int|
                    0 <= k < out@.len() && (#[trigger] out@[k]).0 == i2 && out@[k].1 == j2);
            }
        }
        out
    }

    /// Spawns one tile: picks a uniformly random empty cell and sets it
    /// to two with probability nine in ten, else to four.
    fn new_tile(&mut self)
        requires
            is_square(old(self).grid()),
            has_empty_cell(old(self).grid()),
        ensures
            exists|i: int, j: int, v: u64|
                {
                    &&& 0 <= i < old(self).side()
                    &&& 0 <= j < old(self).side()
                    &&& (v == 2 || v == 4)
                    &&& old(self).grid()[i][j] == 0
                    &&& final(self).grid() == old(self).grid().update(
                        i,
                        old(self).grid()[i].update(j, v),
                    )
                },
            final(self).side() == old(self).side(),
            is_square(final(self).grid()),
            board_tiles(final(self).grid()) == board_tiles(old(self).grid()) + 1,
            board_sum(old(self).grid()) + 2 <= board_sum(final(self).grid()) <= board_sum(
                old(self).grid(),
            ) + 4,
            all_tiles_valid(old(self).grid()) ==> all_tiles_valid(final(self).grid()),
            has_winning_tile(old(self).grid()) ==> has_winning_tile(final(self).grid()),
            !has_winning_tile(old(self).grid()) ==> !has_winning_tile(final(self).grid()),
            final(self).spec_score() == old(self).spec_score(),
            final(self).spec_state() == old(self).spec_state(),
            final(self).spec_result() == old(self).spec_result(),
            final(self).score_next@ == old(self).score_next@,
            final(self).moves@ == old(self).moves@,
            final(self).moves_next@ == old(self).moves_next@,
    {
        let cells = self.empty_cells();
        let pick = random_below(cells.len());
        let cell = cells[pick];
        let i = cell.0;
        let j = cell.1;
        let draw = random_below(10);
        let v: u64 = if draw < 9 {
            2
        } else {
            4
        };
        let ghost oldg = self.grid();
        let new_row = row_updated(&self.board[i], j, v);
        self.board.set(i, new_row);
        proof {
            let g = grid_view(self.board@);
            assert(g =~= oldg.update(i as int, oldg[i as int].update(j as int, v)));
            lemma_board_cell_update(oldg, i as int, j as int, v);
            assert(is_square(g)) by {
                assert forall|t: int| 0 <= t < g.len() implies (#[trigger] g[t]).len()
                    == g.len() by {
                    assert(oldg[t].len() == oldg.len());
                }
            }
            assert forall|i2: int, j2: int|
                0 <= i2 < g.len() && 0 <= j2 < g[i2].len() implies g[i2][j2] == oldg[i2][j2] || (i2
                == i as int && j2 == j as int && g[i2][j2] == v) by {
                if i2 == i as int {
                    assert(g[i2] == oldg[i2].update(j as int, v));
                } else {
                    assert(g[i2] == oldg[i2]);
                }
            }
            if all_tiles_valid(oldg) {
                assert forall|i2: int, j2: int|
                    0 <= i2 < g.len() && 0 <= j2 < g[i2].len() implies is_tile(
                    #[trigger] g[i2][j2],
                ) by {
                    reveal_with_fuel(is_power_of_two, 4);
                    if i2 == i as int {
                        assert(g[i2] == oldg[i2].update(j as int, v));
                        if j2 == j as int {
                            assert(g[i2][j2] == v);
                        } else {
                            assert(g[i2][j2] == oldg[i2][j2]);
                            assert(is_tile(oldg[i2][j2]));
                        }
                    } else {
                        assert(g[i2] == oldg[i2]);
                        assert(is_tile(oldg[i2][j2]));
                    }
                }
            }
            if has_winning_tile(oldg) {
                let (iw, jw) = choose|iw: int, jw: int|
                    0 <= iw < oldg.len() && 0 <= jw < oldg[iw].len() && oldg[iw][jw]
                        >= WINNING_TILE;
                assert(g[iw][jw] >= WINNING_TILE);
            }
            if !has_winning_tile(oldg) {
                assert forall|i2: int, j2: int|
                    0 <= i2 < g.len() && 0 <= j2 < g[i2].len() implies g[i2][j2]
                    < WINNING_TILE by {
                    assert(oldg[i2].len() == oldg.len());
                }
            }
        }
    }
}

impl Game {
    /// Applies a move.  If the direction is not currently legal the call
    /// fails with `InvalidMove` and the state is unchanged.  Otherwise the
    /// cached transformed board is adopted, the cached score delta is
    /// added to the score, exactly one tile is spawned, and all cached
    /// transition results are recomputed.  The returned outcome
    /// distinguishes an ordinary move, the move that first reaches the
    /// winning tile, and a move after which no legal move remains.
    pub fn make_move(&mut self, direction: GameMove) -> (r: Result<MoveOutcome, Error>)
        requires
            old(self).wf(),
        ensures
            final(self).wf(),
            !spec_changed(old(self).grid(), direction) ==> r == Err::<MoveOutcome, Error>(
                Error::InvalidMove,
            ) && *final(self) == *old(self),
            old(self).spec_result() == GameResult::Victory ==> final(self).spec_result()
                == GameResult::Victory,
            final(self).spec_score() >= old(self).spec_score(),
            spec_changed(old(self).grid(), direction) ==> ({
                let mid = spec_transform(old(self).grid(), direction);
                let g = final(self).grid();
                &&& final(self).side() == old(self).side()
                &&& final(self).spec_score() == sat64(
                    old(self).spec_score() + spec_delta(old(self).grid(), direction),
                )
                &&& exists|i: int, j: int, v: u64|
                    {
                        &&& 0 <= i < mid.len()
                        &&& 0 <= j < mid.len()
                        &&& (v == 2 || v == 4)
                        &&& mid[i][j] == 0
                        &&& g == mid.update(i, mid[i].update(j, v))
                    }
                &&& board_tiles(g) == board_tiles(mid) + 1
                &&& board_sum(old(self).grid()) + 2 <= board_sum(g) <= board_sum(
                    old(self).grid(),
                ) + 4
                &&& (final(self).spec_state() == GameState::GameOver <==> spec_terminal(g))
                &&& final(self).spec_result() == spec_next_result(old(self).spec_result(), g)
                &&& r == Ok::<MoveOutcome, Error>(
                    if spec_terminal(g) {
                        MoveOutcome::Terminal
                    } else if old(self).spec_result() != GameResult::Victory
                        && final(self).spec_result() == GameResult::Victory {
                        MoveOutcome::Victory
                    } else {
                        MoveOutcome::Moved
                    },
                )
            }),
    {
        let d = direction.index();
        if !self.moves[d] {
            return Err(Error::InvalidMove);
        }
        let prev_result = self.result;
        let ghost oldg = self.grid();
        let ghost delta_exact = spec_delta(oldg, direction);
        proof {
            assert(spec_changed(oldg, direction));
            lemma_transform_shape(oldg, direction);
            lemma_transform_valid(oldg, direction);
            lemma_transform_sum(oldg, direction);
            lemma_changed_has_empty(oldg, direction);
            lemma_delta_nonneg(oldg, direction);
            if prev_result == GameResult::Victory {
                lemma_transform_keeps_winning(oldg, direction);
            }
            if prev_result == GameResult::Loss {
                assert(spec_terminal(oldg));
                assert(false);
            }
        }
        let next_board = clone_board(&self.moves_next[d]);
        let delta = self.score_next[d];
        self.board = next_board;
        self.score = sat_add64(self.score, delta);
        proof {
            assert(self.grid() == spec_transform(oldg, direction));
            assert(self.score == sat64(old(self).score + delta_exact)) by {
                assert(delta == sat64(delta_exact));
            }
        }
        self.new_tile();
        self.refresh_transitions();
        let won_now = match (prev_result, self.result) {
            (GameResult::Pending, GameResult::Victory) => true,
            _ => false,
        };
        let outcome = match self.state {
            GameState::GameOver => MoveOutcome::Terminal,
            GameState::InProgress => if won_now {
                MoveOutcome::Victory
            } else {
                MoveOutcome::Moved
            },
        };
        Ok(outcome)
    }

    /// Creates a game of the given board side, spawning one tile on an
    /// otherwise empty board.  A side below four fails with
    /// `InvalidSize`.
    pub fn new(size: usize) -> (r: Result<Game, Error>)
        ensures
            size < 4 ==> r == Err::<Game, Error>(Error::InvalidSize),
            size >= 4 ==> (r matches Ok(gm) && gm.wf() && gm.side() == size && gm.spec_score() == 0
                && gm.spec_result() == GameResult::Pending && gm.spec_state()
                == GameState::InProgress && board_tiles(gm.grid()) == 1 && 2 <= board_sum(
                gm.grid(),
            ) <= 4),
    {
        if size < 4 {
            return Err(Error::InvalidSize);
        }
        let mut b: Vec<Vec<u64>> = Vec::new();
        let mut i: usize = 0;
        while i < size
            invariant
                i <= size,
                b@.len() == i,
                forall|t: int| 0 <= t < i ==> (#[trigger] b@[t]@).len() == size,
                forall|t: int, u: int| 0 <= t < i && 0 <= u < size ==> b@[t]@[u] == 0,
            decreases size - i,
        {
            let mut row: Vec<u64> = Vec::new();
            let mut j: usize = 0;
            while j < size
                invariant
                    j <= size,
                    row@.len() == j,
                    forall|u: int| 0 <= u < j ==> row@[u] == 0,
                decreases size - j,
            {
                row.push(0);
                j = j + 1;
            }
            b.push(row);
            i = i + 1;
        }
        let mut score_next: Vec<u64> = Vec::new();
        let mut moves: Vec<bool> = Vec::new();
        let mut moves_next: Vec<Vec<Vec<u64>>> = Vec::new();
        let mut d: usize = 0;
        while d < 4
            invariant
                d <= 4,
                score_next@.len() == d,
                moves@.len() == d,
                moves_next@.len() == d,
            decreases 4 - d,
        {
            score_next.push(0);
            moves.push(false);
            moves_next.push(Vec::new());
            d = d + 1;
        }
        let mut g = Game {
            board: b,
            score: 0,
            score_next,
            moves,
            moves_next,
            state: GameState::InProgress,
            result: GameResult::Pending,
        };
        let ghost zerog = g.grid();
        proof {
            assert(is_square(zerog));
            assert(zerog[0][0] == 0);
            assert(has_empty_cell(zerog));
            lemma_board_all_zero(zerog);
            assert(all_tiles_valid(zerog));
            assert(!has_winning_tile(zerog));
        }
        g.new_tile();
        proof {
            let (i0, j0, v0) = choose|i0: int, j0: int, v0: u64|
                {
                    &&& 0 <= i0 < zerog.len()
                    &&& 0 <= j0 < zerog.len()
                    &&& (v0 == 2 || v0 == 4)
                    &&& zerog[i0][j0] == 0
                    &&& g.grid() == zerog.update(i0, zerog[i0].update(j0, v0))
                };
            assert(g.grid()[i0][j0] == v0);
            assert forall|i2: int, j2: int|
                0 <= i2 < g.grid().len() && 0 <= j2 < g.grid()[i2].len() && !(i2 == i0 && j2 == j0)
                    implies g.grid()[i2][j2] == 0 by {
                if i2 == i0 {
                    assert(g.grid()[i2] == zerog[i2].update(j0, v0));
                } else {
                    assert(g.grid()[i2] == zerog[i2]);
                }
            }
            lemma_single_tile_not_terminal(g.grid(), i0, j0);
            assert(!spec_terminal(g.grid()));
        }
        g.refresh_transitions();
        Ok(g)
    }

    /// Creates a game from an existing board: the board must be square of
    /// side at least four, each cell empty or a power of two of at least
    /// two.  No tile is spawned; the transition results are computed at
    /// once, so legality is known before any move.
    pub fn from_existing(board: &Vec<Vec<u64>>) -> (r: Result<Game, Error>)
        ensures
            grid_view(board@).len() < 4 ==> r == Err::<Game, Error>(Error::InvalidSize),
            grid_view(board@).len() >= 4 && !is_square(grid_view(board@)) ==> r == Err::<
                Game,
                Error,
            >(Error::InvalidBoard),
            grid_view(board@).len() >= 4 && is_square(grid_view(board@)) && !all_tiles_valid(
                grid_view(board@),
            ) ==> r == Err::<Game, Error>(Error::InvalidValue),
            valid_board(grid_view(board@)) ==> (r matches Ok(gm) && gm.wf() && gm.grid()
                == grid_view(board@) && gm.side() == grid_view(board@).len() && gm.spec_score()
                == 0 && (gm.spec_state() == GameState::GameOver <==> spec_terminal(
                grid_view(board@),
            )) && gm.spec_result() == spec_next_result(GameResult::Pending, grid_view(board@))),
    {
        let n = board.len();
        if n < 4 {
            return Err(Error::InvalidSize);
        }
        let mut i: usize = 0;
        while i < n
            invariant
                n == board@.len(),
                n >= 4,
                i <= n,
                forall|t: int| 0 <= t < i ==> (#[trigger] grid_view(board@)[t]).len() == n,
            decreases n - i,
        {
            if board[i].len() != n {
                proof {
                    assert(grid_view(board@)[i as int].len() != n);
                    assert(!is_square(grid_view(board@)));
                }
                return Err(Error::InvalidBoard);
            }
            i = i + 1;
        }
        proof {
            assert(is_square(grid_view(board@)));
        }
        let mut i: usize = 0;
        while i < n
            invariant
                n == board@.len(),
                n >= 4,
                i <= n,
                is_square(grid_view(board@)),
                forall|t: int, u: int|
                    0 <= t < i && 0 <= u < n ==> is_tile(#[trigger] grid_view(board@)[t][u]),
            decreases n - i,
        {
            let row = &board[i];
            proof {
                assert(grid_view(board@)[i as int].len() == n);
            }
            let mut j: usize = 0;
            while j < n
                invariant
                    n == board@.len(),
                    n >= 4,
                    i < n,
                    j <= n,
                    is_square(grid_view(board@)),
                    row@ == grid_view(board@)[i as int],
                    row@.len() == n,
                    forall|t: int, u: int|
                        0 <= t < i && 0 <= u < n ==> is_tile(#[trigger] grid_view(board@)[t][u]),
                    forall|u: int| 0 <= u < j ==> is_tile(#[trigger] grid_view(board@)[i as int][u]),
                decreases n - j,
            {
                if !is_valid_tile(row[j]) {
                    proof {
                        assert(!is_tile(grid_view(board@)[i as int][j as int]));
                        assert(!all_tiles_valid(grid_view(board@)));
                    }
                    return Err(Error::InvalidValue);
                }
                j = j + 1;
            }
            i = i + 1;
        }
        proof {
            assert(all_tiles_valid(grid_view(board@)));
        }
        let b2 = clone_board(board);
        let mut score_next: Vec<u64> = Vec::new();
        let mut moves: Vec<bool> = Vec::new();
        let mut moves_next: Vec<Vec<Vec<u64>>> = Vec::new();
        let mut d: usize = 0;
        while d < 4
            invariant
                d <= 4,
                score_next@.len() == d,
                moves@.len() == d,
                moves_next@.len() == d,
            decreases 4 - d,
        {
            score_next.push(0);
            moves.push(false);
            moves_next.push(Vec::new());
            d = d + 1;
        }
        let mut g = Game {
            board: b2,
            score: 0,
            score_next,
            moves,
            moves_next,
            state: GameState::InProgress,
            result: GameResult::Pending,
        };
        g.refresh_transitions();
        Ok(g)
    }
}

impl Default for Game {
    /// The default game: a fresh four-by-four board with one spawned
    /// tile.
    fn default() -> (r: Self)
        ensures
            r.wf(),
            r.side() == 4,
            r.spec_score() == 0,
            r.spec_result() == GameResult::Pending,
            r.spec_state() == GameState::InProgress,
    {
        match Game::new(4) {
            Ok(g) => g,
            Err(_) => {
                proof {
                    assert(false);
                }
                Game {
                    board: Vec::new(),
                    score: 0,
                    score_next: Vec::new(),
                    moves: Vec::new(),
                    moves_next: Vec::new(),
                    state: GameState::InProgress,
                    result: GameResult::Pending,
                }
            },
        }
    }
}

/// Returns a copy of one row.
fn copy_row(row: &Vec<u64>) -> (r: Vec<u64>)
    ensures
        r@ == row@,
{
    let mut out: Vec<u64> = Vec::new();
    let mut k: usize = 0;
    while k < row.len()
        invariant
            k <= row@.len(),
            out@ == row@.take(k as int),
        decreases row@.len() - k,
    {
        out.push(row[k]);
        proof {
            assert(out@ =~= row@.take(k + 1));
        }
        k = k + 1;
    }
    proof {
        assert(row@.take(row@.len() as int) =~= row@);
    }
    out
}

/// Returns a deep copy of a board.
fn clone_board(b: &Vec<Vec<u64>>) -> (r: Vec<Vec<u64>>)
    ensures
        grid_view(r@) == grid_view(b@),
        r@.len() == b@.len(),
{
    let mut out: Vec<Vec<u64>> = Vec::new();
    let mut i: usize = 0;
    while i < b.len()
        invariant
            i <= b@.len(),
            out@.len() == i,
            forall|t: int| 0 <= t < i ==> #[trigger] out@[t]@ == b@[t]@,
        decreases b@.len() - i,
    {
        let row = copy_row(&b[i]);
        out.push(row);
        i = i + 1;
    }
    proof {
        assert(grid_view(out@) =~= grid_view(b@));
    }
    out
}

/// Returns `row` with the cell at `j` replaced by `v`.
fn row_updated(row: &Vec<u64>, j: usize, v: u64) -> (r: Vec<u64>)
    requires
        j < row@.len(),
    ensures
        r@ == row@.update(j as int, v),
{
    let mut out: Vec<u64> = Vec::new();
    let mut k: usize = 0;
    while k < row.len()
        invariant
            k <= row@.len(),
            j < row@.len(),
            out@ == row@.update(j as int, v).take(k as int),
        decreases row@.len() - k,
    {
        if k == j {
            out.push(v);
        } else {
            out.push(row[k]);
        }
        proof {
            assert(out@ =~= row@.update(j as int, v).take(k + 1));
        }
        k = k + 1;
    }
    proof {
        assert(row@.update(j as int, v).take(row@.len() as int) =~= row@.update(j as int, v));
    }
    out
}

/// Scans the board for a cell that has reached the winning value.
fn board_has_winning(b: &Vec<Vec<u64>>) -> (r: bool)
    ensures
        r == has_winning_tile(grid_view(b@)),
{
    let mut i: usize = 0;
    while i < b.len()
        invariant
            i <= b@.len(),
            forall|i2: int, j2: int|
                0 <= i2 < i && 0 <= j2 < grid_view(b@)[i2].len() ==> grid_view(b@)[i2][j2]
                    < WINNING_TILE,
        decreases b@.len() - i,
    {
        let row = &b[i];
        let mut j: usize = 0;
        while j < row.len()
            invariant
                i < b@.len(),
                j <= row@.len(),
                row@ == grid_view(b@)[i as int],
                forall|j2: int| 0 <= j2 < j ==> grid_view(b@)[i as int][j2] < WINNING_TILE,
            decreases row@.len() - j,
        {
            if row[j] >= WINNING_TILE {
                return true;
            }
            j = j + 1;
        }
        i = i + 1;
    }
    false
}

/// Checks whether `v` may stand in a cell: zero, or a power of two of at
/// least two.
fn is_valid_tile(v: u64) -> (r: bool)
    ensures
        r == is_tile(v),
{
    if v == 0 {
        return true;
    }
    if v < 2 {
        return false;
    }
    let mut x: u64 = v;
    while x % 2 == 0
        invariant
            1 <= x <= v,
            v >= 2,
            is_power_of_two(v as int) <==> is_power_of_two(x as int),
        decreases x,
    {
        x = x / 2;
    }
    if x == 1 {
        assert(is_power_of_two(1int));
        true
    } else {
        assert(!is_power_of_two(x as int));
        false
    }
}

} // verus!
