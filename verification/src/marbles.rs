//! The single-pile subtraction game, "Marbles": a move removes one, two, or
//! three tokens from the pile; the player who takes the last token wins.
//!
//! The Grundy value of a pile of `n` tokens is `n % 4`: a pile whose size is
//! a multiple of four is a loss for the player to move.

use vstd::prelude::*;

verus! {

/// One move: the number of tokens to remove. Legal values are one to three,
/// and at most the current pile size.
#[derive(Debug, Clone, Copy, PartialEq, Eq, Structural)]
pub struct MarblesMove(pub u32);

/// A move is legal for a pile of `pile_amt` tokens when it removes between
/// one and three tokens and no more than the pile holds.
pub open spec fn marbles_legal(pile_amt: u32, m: MarblesMove) -> bool {
    1 <= m.0 <= 3 && m.0 <= pile_amt
}

/// The pile left after applying a legal move.
pub open spec fn marbles_apply(pile_amt: u32, m: MarblesMove) -> u32 {
    (pile_amt - m.0) as u32
}

/// The pile as it was before `m`, the most recently applied move.
pub open spec fn marbles_unapply(pile_amt: u32, m: MarblesMove) -> u32 {
    (pile_amt + m.0) as u32
}

/// The recorded history can be undone step by step: each recorded move
/// removed between one and three tokens, and re-adding them never overflows
/// the pile counter.
pub open spec fn marbles_history_wf(pile_amt: u32, moves: Seq<MarblesMove>) -> bool
    decreases moves.len(),
{
    if moves.len() == 0 {
        true
    } else {
        let m = moves.last();
        &&& 1 <= m.0 <= 3
        &&& pile_amt + m.0 <= u32::MAX
        &&& marbles_history_wf(marbles_unapply(pile_amt, m), moves.drop_last())
    }
}

/// Game state for the subtraction game: the pile, whose turn it is (`true`
/// for the external player, `false` for the computer opponent), and the
/// ordered history of applied moves, appended to by `apply_move` and popped
/// from by `undo_move`.
#[derive(Clone)]
pub struct MarblesState {
    pub pile_amt: u32,
    pub turn: bool,
    pub moves: Vec<MarblesMove>,
}

impl MarblesState {
    /// The state invariant: the recorded history is consistent with the
    /// current pile, so every recorded move can be undone.
    pub open spec fn wf(self) -> bool {
        marbles_history_wf(self.pile_amt, self.moves@)
    }

    pub fn new(pile_amt: u32, turn: bool) -> (s: Self)
        ensures
            s.pile_amt == pile_amt,
            s.turn == turn,
            s.moves@.len() == 0,
            s.wf(),
    {
        Self { pile_amt, turn, moves: Vec::new() }
    }

    /// A randomized initial position: ten to twenty tokens, the external
    /// player to move first.
    pub fn gen() -> (s: Self)
        ensures
            10 <= s.pile_amt <= 20,
            s.turn == true,
            s.moves@.len() == 0,
            s.wf(),
    {
        let pile_amt = crate::rng::random_in_range(10, 20);
        Self::new(pile_amt, true)
    }

    /// The game ends exactly when the pile is empty.
    pub fn is_game_over(&self) -> (r: bool)
        ensures
            r == (self.pile_amt == 0),
    {
        self.pile_amt == 0
    }

    /// Validate and apply one move. An illegal move (zero tokens, more than
    /// three tokens, or more tokens than the pile holds) is rejected and the
    /// state is left untouched; a legal move shrinks the pile, flips the
    /// turn, and is appended to the history.
    pub fn apply_move(&mut self, action: MarblesMove) -> (r: bool)
        ensures
            r == marbles_legal(old(self).pile_amt, action),
            !r ==> *final(self) == *old(self),
            r ==> final(self).pile_amt == marbles_apply(old(self).pile_amt, action),
            r ==> final(self).turn == !old(self).turn,
            r ==> final(self).moves@ == old(self).moves@.push(action),
            old(self).wf() ==> final(self).wf(),
    {
        let MarblesMove(amount) = action;
        if amount < 1 || amount > 3 {
            return false;
        }
        if amount > self.pile_amt {
            return false;
        }
        self.pile_amt = self.pile_amt - amount;
        self.turn = !self.turn;
        self.moves.push(action);
        proof {
            if old(self).wf() {
                assert(self.moves@.drop_last() =~= old(self).moves@);
                assert(marbles_unapply(self.pile_amt, action) == old(self).pile_amt);
            }
        }
        true
    }

    /// The Grundy value of the position: the pile size modulo four.
    pub fn grundy_value(&self) -> (r: u32)
        ensures
            r == self.pile_amt % 4,
    {
        self.pile_amt % 4
    }

    /// A move that is optimal for the player to move, on a non-terminal
    /// position. When the Grundy value is non-zero, removing exactly that
    /// many tokens leaves the opponent a pile that is a multiple of four, a
    /// losing position; when it is zero every move loses, and the fallback
    /// removes a single token.
    pub fn optimal_move(&self) -> (r: MarblesMove)
        requires
            self.pile_amt > 0,
        ensures
            marbles_legal(self.pile_amt, r),
            self.pile_amt % 4 == 0 ==> r.0 == 1,
            self.pile_amt % 4 != 0 ==> r.0 == self.pile_amt % 4,
            self.pile_amt % 4 != 0 ==> marbles_apply(self.pile_amt, r) % 4 == 0,
    {
        let grundy = self.grundy_value();
        if grundy == 0 {
            MarblesMove(1)
        } else {
            MarblesMove(grundy)
        }
    }

    /// Undo the most recently applied move: re-add its tokens to the pile
    /// and flip the turn back. With an empty history this is silently a
    /// no-op.
    pub fn undo_move(&mut self)
        requires
            old(self).wf(),
        ensures
            old(self).moves@.len() == 0 ==> *final(self) == *old(self),
            old(self).moves@.len() > 0 ==> final(self).pile_amt == marbles_unapply(
                old(self).pile_amt,
                old(self).moves@.last(),
            ),
            old(self).moves@.len() > 0 ==> final(self).turn == !old(self).turn,
            old(self).moves@.len() > 0 ==> final(self).moves@ == old(self).moves@.drop_last(),
            final(self).wf(),
    {
        if self.moves.len() == 0 {
            return ;
        }
        let m = self.moves.pop().unwrap();
        let MarblesMove(amount) = m;
        self.pile_amt = self.pile_amt + amount;
        self.turn = !self.turn;
    }
}

/// Undoing the move just applied restores the exact prior state: the pile is
/// back to its old size, and popping the appended move restores the history.
/// (The turn is restored as well: `apply_move` and `undo_move` each flip it
/// once.)
pub proof fn lemma_undo_inverts_apply(pile_amt: u32, moves: Seq<MarblesMove>, m: MarblesMove)
    requires
        marbles_legal(pile_amt, m),
    ensures
        marbles_unapply(marbles_apply(pile_amt, m), m) == pile_amt,
        moves.push(m).drop_last() == moves,
        moves.push(m).last() == m,
{
    assert(moves.push(m).drop_last() =~= moves);
}

/// Each move of `ms` is legal at the pile reached by applying the moves
/// before it.
pub open spec fn marbles_legal_seq(pile_amt: u32, ms: Seq<MarblesMove>) -> bool
    decreases ms.len(),
{
    ms.len() == 0 || (marbles_legal(pile_amt, ms.first()) && marbles_legal_seq(
        marbles_apply(pile_amt, ms.first()),
        ms.drop_first(),
    ))
}

/// The pile reached by applying the moves of `ms` in order.
pub open spec fn marbles_replay(pile_amt: u32, ms: Seq<MarblesMove>) -> u32
    decreases ms.len(),
{
    if ms.len() == 0 {
        pile_amt
    } else {
        marbles_replay(marbles_apply(pile_amt, ms.first()), ms.drop_first())
    }
}

/// The pile reached by undoing the moves of `ms`, most recent first.
pub open spec fn marbles_unwind_all(pile_amt: u32, ms: Seq<MarblesMove>) -> u32
    decreases ms.len(),
{
    if ms.len() == 0 {
        pile_amt
    } else {
        marbles_unwind_all(marbles_unapply(pile_amt, ms.last()), ms.drop_last())
    }
}

/// Replaying one more move applies it to the replayed pile.
proof fn lemma_replay_push(pile_amt: u32, ms: Seq<MarblesMove>, m: MarblesMove)
    ensures
        marbles_replay(pile_amt, ms.push(m)) == marbles_apply(marbles_replay(pile_amt, ms), m),
    decreases ms.len(),
{
    if ms.len() == 0 {
        reveal_with_fuel(marbles_replay, 2);
        assert(ms.push(m).first() == m);
        assert(ms.push(m).drop_first() =~= Seq::<MarblesMove>::empty());
    } else {
        assert(ms.push(m).first() == ms.first());
        assert(ms.push(m).drop_first() =~= ms.drop_first().push(m));
        lemma_replay_push(marbles_apply(pile_amt, ms.first()), ms.drop_first(), m);
    }
}

/// A move sequence with its last move split off is legal exactly when the
/// prefix is legal and the last move is legal at the replayed pile.
proof fn lemma_legal_seq_push(pile_amt: u32, ms: Seq<MarblesMove>, m: MarblesMove)
    ensures
        marbles_legal_seq(pile_amt, ms.push(m)) <==> (marbles_legal_seq(pile_amt, ms)
            && marbles_legal(marbles_replay(pile_amt, ms), m)),
    decreases ms.len(),
{
    if ms.len() == 0 {
        reveal_with_fuel(marbles_legal_seq, 2);
        assert(ms.push(m).first() == m);
        assert(ms.push(m).drop_first() =~= Seq::<MarblesMove>::empty());
    } else {
        assert(ms.push(m).first() == ms.first());
        assert(ms.push(m).drop_first() =~= ms.drop_first().push(m));
        lemma_legal_seq_push(marbles_apply(pile_amt, ms.first()), ms.drop_first(), m);
    }
}

/// Undo inverts apply over whole games: applying any legal move sequence and
/// then undoing every move of it, most recent first, reproduces the exact
/// prior pile. (The turn is likewise restored: it is flipped once per apply
/// and once per undo, `2 * ms.len()` times in all.)
pub proof fn lemma_unwind_inverts_replay(pile_amt: u32, ms: Seq<MarblesMove>)
    requires
        marbles_legal_seq(pile_amt, ms),
    ensures
        marbles_unwind_all(marbles_replay(pile_amt, ms), ms) == pile_amt,
    decreases ms.len(),
{
    if ms.len() > 0 {
        let ms0 = ms.drop_last();
        let m = ms.last();
        assert(ms0.push(m) =~= ms);
        lemma_legal_seq_push(pile_amt, ms0, m);
        lemma_replay_push(pile_amt, ms0, m);
        lemma_undo_inverts_apply(marbles_replay(pile_amt, ms0), ms0, m);
        lemma_unwind_inverts_replay(pile_amt, ms0);
    }
}

/// The state invariant in replay form: from a well-formed state, undoing the
/// whole recorded history yields an initial pile from which replaying that
/// history is legal and reproduces the current pile exactly.
pub proof fn lemma_wf_history_replays(pile_amt: u32, ms: Seq<MarblesMove>)
    requires
        marbles_history_wf(pile_amt, ms),
    ensures
        marbles_legal_seq(marbles_unwind_all(pile_amt, ms), ms),
        marbles_replay(marbles_unwind_all(pile_amt, ms), ms) == pile_amt,
    decreases ms.len(),
{
    if ms.len() > 0 {
        let m = ms.last();
        let ms0 = ms.drop_last();
        let prev = marbles_unapply(pile_amt, m);
        lemma_wf_history_replays(prev, ms0);
        let init = marbles_unwind_all(prev, ms0);
        assert(ms0.push(m) =~= ms);
        assert(marbles_legal(prev, m));
        lemma_legal_seq_push(init, ms0, m);
        lemma_replay_push(init, ms0, m);
    }
}

} // verus!
