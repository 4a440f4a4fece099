//! General laws of the transition engine, stated and proved once for all
//! boards.  Further laws live as postconditions where they belong: the
//! sum preservation of a slide (`lemma_transform_sum`), the non-negative
//! score delta (`lemma_delta_nonneg`) and the guaranteed empty cell after
//! a legal move (`lemma_changed_has_empty`) stand in `board`; the spawn
//! count, the exact score accounting and the one-way victory latch stand
//! in the contract of `Game::make_move`.

use vstd::prelude::*;
use crate::direction::GameMove;
use crate::transform::{spec_transform, spec_changed};
use crate::game::{spec_terminal, spec_legal_seq};

verus! {

/// Applying a direction that is not legal changes nothing: legality is
/// defined as the transform yielding a different board.
pub proof fn lemma_noop_when_not_legal(b: Seq<Seq<u64>>, m: GameMove)
    requires
        !spec_changed(b, m),
    ensures
        spec_transform(b, m) == b,
{
}

/// Applying a direction twice in immediate succession, with no spawn in
/// between, is idempotent once the direction is no longer legal after
/// the first application.
pub proof fn lemma_transform_idempotent_when_settled(b: Seq<Seq<u64>>, m: GameMove)
    requires
        !spec_changed(spec_transform(b, m), m),
    ensures
        spec_transform(spec_transform(b, m), m) == spec_transform(b, m),
{
}

/// The sequence of legal directions is empty exactly when the board is
/// terminal.
pub proof fn lemma_legal_empty_iff_terminal(b: Seq<Seq<u64>>)
    ensures
        spec_legal_seq(b).len() == 0 <==> spec_terminal(b),
{
    let s = spec_legal_seq(b);
    if s.len() == 0 {
        assert forall|m: GameMove| !(#[trigger] spec_changed(b, m)) by {
            match m {
                GameMove::Left => {
                    if spec_changed(b, GameMove::Left) {
                        assert(s.len() >= 1);
                    }
                },
                GameMove::Right => {
                    if spec_changed(b, GameMove::Right) {
                        assert(s.len() >= 1);
                    }
                },
                GameMove::Up => {
                    if spec_changed(b, GameMove::Up) {
                        assert(s.len() >= 1);
                    }
                },
                GameMove::Down => {
                    if spec_changed(b, GameMove::Down) {
                        assert(s.len() >= 1);
                    }
                },
            }
        }
    } else {
        if spec_terminal(b) {
            assert(!spec_changed(b, GameMove::Left));
            assert(!spec_changed(b, GameMove::Right));
            assert(!spec_changed(b, GameMove::Up));
            assert(!spec_changed(b, GameMove::Down));
            assert(s.len() == 0);
        }
    }
}

} // verus!
