//! A verified engine for two impartial take-away games: Nim (several piles,
//! remove any positive number of tokens from one pile) and a single-pile
//! subtraction game, "Marbles" (remove one to three tokens per turn).
//!
//! Both games expose the same shape of state machine: legal-move validation,
//! move application, undo with an append-only history, terminal detection,
//! and a Grundy-value-driven optimal-move solver for the computer opponent.

use vstd::prelude::*;

pub mod marbles;
pub mod nim;
mod rng;

verus! {

/// Whose turn it is after `n` moves, starting from `turn`: each applied move
/// flips the flag exactly once, as does each undo.
pub open spec fn turn_after(turn: bool, n: nat) -> bool {
    if n % 2 == 0 {
        turn
    } else {
        !turn
    }
}

/// Turn alternation: `apply_move` flips the turn once per successful move
/// and `undo_move` flips it once per undone move, so `n` applies followed by
/// `n` undos restore the turn that the game started with.
pub proof fn lemma_turn_alternation(turn: bool, n: nat)
    ensures
        turn_after(turn_after(turn, n), n) == turn,
{
}

} // verus!
