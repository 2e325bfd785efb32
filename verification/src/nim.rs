//! Nim: several piles of tokens; a move removes at least one token from one
//! chosen pile; the player who takes the last token wins.
//!
//! The Grundy value of a position is the bitwise XOR of all pile sizes
//! (Sprague–Grundy theorem for a disjunctive sum of one-pile games). A
//! position is a loss for the player to move exactly when that XOR is zero.

use vstd::prelude::*;

verus! {

/// One move: the index of the targeted pile and the number of tokens
/// removed from it.
#[derive(Debug, Clone, Copy, PartialEq, Eq, Structural)]
pub struct NimMove(pub usize, pub u32);

/// The Grundy value of a Nim position: the XOR of all pile sizes.
pub open spec fn xor_fold(piles: Seq<u32>) -> u32
    decreases piles.len(),
{
    if piles.len() == 0 {
        0u32
    } else {
        xor_fold(piles.drop_last()) ^ piles.last()
    }
}

/// A move is legal when it targets an existing pile and removes at least one
/// token and at most the whole pile.
pub open spec fn nim_legal(piles: Seq<u32>, m: NimMove) -> bool {
    m.0 < piles.len() && 1 <= m.1 <= piles[m.0 as int]
}

/// The piles left after applying a legal move.
pub open spec fn nim_apply(piles: Seq<u32>, m: NimMove) -> Seq<u32> {
    piles.update(m.0 as int, (piles[m.0 as int] - m.1) as u32)
}

/// The piles as they were before `m`, the most recently applied move.
pub open spec fn nim_unapply(piles: Seq<u32>, m: NimMove) -> Seq<u32> {
    piles.update(m.0 as int, (piles[m.0 as int] + m.1) as u32)
}

/// Every pile is empty: the terminal position.
pub open spec fn all_empty(piles: Seq<u32>) -> bool {
    forall|i: int| 0 <= i < piles.len() ==> piles[i] == 0
}

/// The recorded history can be undone step by step: each recorded move hit a
/// pile that still exists, removed at least one token, and re-adding the
/// tokens never overflows the pile counter.
pub open spec fn nim_history_wf(piles: Seq<u32>, moves: Seq<NimMove>) -> bool
    decreases moves.len(),
{
    if moves.len() == 0 {
        true
    } else {
        let m = moves.last();
        &&& m.0 < piles.len()
        &&& 1 <= m.1
        &&& piles[m.0 as int] + m.1 <= u32::MAX
        &&& nim_history_wf(nim_unapply(piles, m), moves.drop_last())
    }
}

/// Game state for Nim: the piles, whose turn it is (`true` for the external
/// player, `false` for the computer opponent), and the ordered history of
/// applied moves, appended to by `apply_move` and popped from by
/// `undo_move`.
#[derive(Clone)]
pub struct NimState {
    pub piles: Vec<u32>,
    pub turn: bool,
    pub moves: Vec<NimMove>,
}

impl NimState {
    /// The state invariant: the recorded history is consistent with the
    /// current piles, so every recorded move can be undone.
    pub open spec fn wf(self) -> bool {
        nim_history_wf(self.piles@, self.moves@)
    }

    pub fn new(piles: Vec<u32>, turn: bool) -> (s: Self)
        ensures
            s.piles@ == piles@,
            s.turn == turn,
            s.moves@.len() == 0,
            s.wf(),
    {
        Self { piles, turn, moves: Vec::new() }
    }

    /// A randomized initial position: three to five piles of one to six
    /// tokens each, the external player to move first.
    pub fn gen() -> (s: Self)
        ensures
            3 <= s.piles@.len() <= 5,
            forall|i: int| 0 <= i < s.piles@.len() ==> 1 <= #[trigger] s.piles@[i] <= 6,
            s.turn == true,
            s.moves@.len() == 0,
            s.wf(),
    {
        let num_piles = crate::rng::random_in_range(3, 5);
        let mut piles: Vec<u32> = Vec::new();
        let mut i: u32 = 0;
        while i < num_piles
            invariant
                i <= num_piles,
                3 <= num_piles <= 5,
                piles@.len() == i,
                forall|j: int| 0 <= j < piles@.len() ==> 1 <= #[trigger] piles@[j] <= 6,
            decreases num_piles - i,
        {
            let size = crate::rng::random_in_range(1, 6);
            piles.push(size);
            i += 1;
        }
        Self::new(piles, true)
    }

    /// The game ends exactly when every pile is empty.
    pub fn is_game_over(&self) -> (r: bool)
        ensures
            r == all_empty(self.piles@),
    {
        let mut i: usize = 0;
        while i < self.piles.len()
            invariant
                i <= self.piles@.len(),
                forall|j: int| 0 <= j < i ==> self.piles@[j] == 0,
            decreases self.piles@.len() - i,
        {
            if self.piles[i] != 0 {
                return false;
            }
            i += 1;
        }
        true
    }

    /// The Grundy value of the position: the XOR of all pile sizes.
    pub fn grundy_value(&self) -> (r: u32)
        ensures
            r == xor_fold(self.piles@),
    {
        let mut acc: u32 = 0;
        let mut i: usize = 0;
        while i < self.piles.len()
            invariant
                i <= self.piles@.len(),
                acc == xor_fold(self.piles@.take(i as int)),
            decreases self.piles@.len() - i,
        {
            proof {
                let t = self.piles@.take(i as int + 1);
                assert(t.drop_last() =~= self.piles@.take(i as int));
                assert(t.last() == self.piles@[i as int]);
            }
            acc = acc ^ self.piles[i];
            i += 1;
        }
        proof {
            assert(self.piles@.take(self.piles@.len() as int) =~= self.piles@);
        }
        acc
    }

    /// Validate and apply one move. An illegal move (out-of-range pile index,
    /// zero tokens, more tokens than the pile holds — which covers a pile
    /// that is already empty) is rejected and the state is left untouched; a
    /// legal move shrinks the targeted pile, flips the turn, and is appended
    /// to the history.
    pub fn apply_move(&mut self, action: NimMove) -> (r: bool)
        ensures
            r == nim_legal(old(self).piles@, action),
            !r ==> *final(self) == *old(self),
            r ==> final(self).piles@ == nim_apply(old(self).piles@, action),
            r ==> final(self).turn == !old(self).turn,
            r ==> final(self).moves@ == old(self).moves@.push(action),
            old(self).wf() ==> final(self).wf(),
    {
        let NimMove(pile, amount) = action;
        if pile >= self.piles.len() {
            return false;
        }
        let pile_amt = self.piles[pile];
        if amount < 1 || pile_amt < amount {
            return false;
        }
        if pile_amt == 0 {
            return false;
        }
        self.piles[pile] = pile_amt - amount;
        self.turn = !self.turn;
        self.moves.push(action);
        proof {
            if old(self).wf() {
                assert(self.moves@.drop_last() =~= old(self).moves@);
                assert(nim_unapply(self.piles@, action) =~= old(self).piles@);
            }
        }
        true
    }

    /// Undo the most recently applied move: re-add its tokens to the pile it
    /// came from and flip the turn back. With an empty history this is
    /// silently a no-op.
    pub fn undo_move(&mut self)
        requires
            old(self).wf(),
        ensures
            old(self).moves@.len() == 0 ==> *final(self) == *old(self),
            old(self).moves@.len() > 0 ==> final(self).piles@ == nim_unapply(
                old(self).piles@,
                old(self).moves@.last(),
            ),
            old(self).moves@.len() > 0 ==> final(self).turn == !old(self).turn,
            old(self).moves@.len() > 0 ==> final(self).moves@ == old(self).moves@.drop_last(),
            final(self).wf(),
    {
        if self.moves.len() == 0 {
            return ;
        }
        let m = self.moves.pop().unwrap();
        let NimMove(pile, amount) = m;
        let pile_amt = self.piles[pile];
        self.piles[pile] = pile_amt + amount;
        self.turn = !self.turn;
    }

    /// A move that is optimal for the player to move, on a non-terminal
    /// position. When the Grundy value `g` is non-zero, the move targets the
    /// first pile whose size XOR `g` is smaller than the pile, and shrinks
    /// it to exactly that XOR — driving the position's Grundy value to zero
    /// (such a pile always exists; see `lemma_winning_pile_exists`). When
    /// `g` is zero every move loses, and the fallback removes a single token
    /// from the first non-empty pile.
    pub fn optimal_move(&self) -> (r: NimMove)
        requires
            !all_empty(self.piles@),
        ensures
            nim_legal(self.piles@, r),
            xor_fold(self.piles@) == 0 ==> r.1 == 1 && (forall|j: int|
                0 <= j < r.0 ==> self.piles@[j] == 0),
            xor_fold(self.piles@) != 0 ==> ({
                let g = xor_fold(self.piles@);
                &&& (self.piles@[r.0 as int] ^ g) < self.piles@[r.0 as int]
                &&& r.1 == self.piles@[r.0 as int] - (self.piles@[r.0 as int] ^ g)
                &&& forall|j: int|
                    0 <= j < r.0 ==> !((self.piles@[j] ^ g) < self.piles@[j])
                &&& xor_fold(nim_apply(self.piles@, r)) == 0
            }),
    {
        let grundy = self.grundy_value();
        let n = self.piles.len();
        if grundy == 0 {
            // Every move loses; remove one token from the first non-empty
            // pile.
            let mut pile: usize = 0;
            loop
                invariant
                    0 <= pile < n,
                    n == self.piles@.len(),
                    forall|j: int| 0 <= j < pile ==> self.piles@[j] == 0,
                    !all_empty(self.piles@),
                    xor_fold(self.piles@) == 0,
                decreases n - pile,
            {
                if self.piles[pile] > 0 {
                    return NimMove(pile, 1);
                }
                proof {
                    assert(exists|i: int| 0 <= i < self.piles@.len() && self.piles@[i] != 0);
                    let w = choose|i: int| 0 <= i < self.piles@.len() && self.piles@[i] != 0;
                    assert(w > pile);
                }
                pile += 1;
            }
        }
        proof {
            lemma_winning_pile_exists(self.piles@);
        }
        let mut idx: usize = 0;
        loop
            invariant
                0 <= idx < n,
                n == self.piles@.len(),
                xor_fold(self.piles@) == grundy,
                grundy != 0,
                forall|j: int| 0 <= j < idx ==> !((self.piles@[j] ^ grundy) < self.piles@[j]),
                exists|i: int|
                    idx <= i < self.piles@.len() && ((self.piles@[i] ^ grundy)
                        < self.piles@[i]),
            decreases n - idx,
        {
            let pile_amt = self.piles[idx];
            let target = pile_amt ^ grundy;
            if target < pile_amt {
                proof {
                    lemma_winning_move_wins(self.piles@, NimMove(idx, (pile_amt - target) as u32));
                }
                return NimMove(idx, pile_amt - target);
            }
            proof {
                let w = choose|i: int|
                    idx <= i < self.piles@.len() && ((self.piles@[i] ^ grundy)
                        < self.piles@[i]);
                assert(w > idx);
            }
            idx += 1;
        }
    }
}

/// `m` has exactly one bit set.
pub open spec fn single_bit(m: u32) -> bool {
    m != 0 && (m & ((m - 1) as u32)) == 0
}

/// No bit of `g` lies strictly above the single-bit mask `m`.
pub open spec fn no_bits_above(g: u32, m: u32) -> bool {
    g & !(m | ((m - 1) as u32)) == 0
}

/// Every non-zero value has a highest set bit.
proof fn lemma_high_bit(g: u32) -> (m: u32)
    requires
        g != 0,
    ensures
        single_bit(m),
        g & m == m,
        no_bits_above(g, m),
{
    assert(single_bit(0x8000_0000u32) && no_bits_above(g, 0x8000_0000u32)) by (bit_vector);
    lemma_high_bit_from(g, 0x8000_0000u32)
}

/// Walk the candidate mask downward until it meets a set bit of `g`.
proof fn lemma_high_bit_from(g: u32, m: u32) -> (k: u32)
    requires
        g != 0,
        single_bit(m),
        no_bits_above(g, m),
    ensures
        single_bit(k),
        g & k == k,
        no_bits_above(g, k),
    decreases m,
{
    if g & m == m {
        m
    } else {
        assert(single_bit(m >> 1u32) && no_bits_above(g, m >> 1u32) && (m >> 1u32) < m)
            by (bit_vector)
            requires
                g != 0,
                single_bit(m),
                no_bits_above(g, m),
                g & m != m,
        ;
        lemma_high_bit_from(g, m >> 1u32)
    }
}

/// If the XOR of all piles has the bit `m` set, some pile has it set: an XOR
/// over values that all lack a bit also lacks it.
proof fn lemma_fold_bit_witness(piles: Seq<u32>, m: u32) -> (i: int)
    requires
        single_bit(m),
        xor_fold(piles) & m == m,
    ensures
        0 <= i < piles.len(),
        piles[i] & m == m,
    decreases piles.len(),
{
    if piles.len() == 0 {
        assert(!(0u32 & m == m)) by (bit_vector)
            requires
                m != 0,
        ;
        0
    } else {
        let x = piles.last();
        let rest = piles.drop_last();
        if x & m == m {
            piles.len() - 1
        } else {
            let a = xor_fold(rest);
            assert(a & m == m) by (bit_vector)
                requires
                    (a ^ x) & m == m,
                    x & m != m,
                    single_bit(m),
            ;
            lemma_fold_bit_witness(rest, m)
        }
    }
}

/// XOR with a value whose highest bit is set in `p` strictly shrinks `p`.
proof fn lemma_xor_shrinks(p: u32, g: u32, m: u32)
    by (bit_vector)
    requires
        single_bit(m),
        g & m == m,
        no_bits_above(g, m),
        p & m == m,
    ensures
        (p ^ g) < p,
{
}

/// Replacing one pile changes the XOR fold by the old and the new value.
pub proof fn lemma_xor_fold_update(piles: Seq<u32>, i: int, v: u32)
    requires
        0 <= i < piles.len(),
    ensures
        xor_fold(piles.update(i, v)) == xor_fold(piles) ^ piles[i] ^ v,
    decreases piles.len(),
{
    let x = piles.last();
    let rest = piles.drop_last();
    let a = xor_fold(rest);
    if i == piles.len() - 1 {
        assert(piles.update(i, v).drop_last() =~= rest);
        assert(a ^ v == ((a ^ x) ^ x) ^ v) by (bit_vector);
    } else {
        assert(piles.update(i, v).drop_last() =~= rest.update(i, v));
        assert(piles.update(i, v).last() == x);
        lemma_xor_fold_update(rest, i, v);
        let b = piles[i];
        assert(((a ^ b) ^ v) ^ x == ((a ^ x) ^ b) ^ v) by (bit_vector);
    }
}

/// The Grundy value of the terminal, all-empty position is zero.
pub proof fn lemma_xor_fold_all_empty(piles: Seq<u32>)
    requires
        all_empty(piles),
    ensures
        xor_fold(piles) == 0,
    decreases piles.len(),
{
    if piles.len() > 0 {
        assert(all_empty(piles.drop_last()));
        lemma_xor_fold_all_empty(piles.drop_last());
        assert(0u32 ^ 0u32 == 0u32) by (bit_vector);
    }
}

/// Sprague–Grundy existence: in a position with non-zero Grundy value some
/// non-empty pile can be XOR-reduced, so a winning move exists.
pub proof fn lemma_winning_pile_exists(piles: Seq<u32>)
    requires
        xor_fold(piles) != 0,
    ensures
        exists|i: int|
            0 <= i < piles.len() && piles[i] > 0 && ((piles[i] ^ xor_fold(piles)) < piles[i]),
{
    let g = xor_fold(piles);
    let m = lemma_high_bit(g);
    let i = lemma_fold_bit_witness(piles, m);
    lemma_xor_shrinks(piles[i], g, m);
}

/// Sprague–Grundy soundness: shrinking pile `m.0` to exactly its XOR with
/// the Grundy value is a legal move and leaves a position whose Grundy value
/// is zero — a losing position for the opponent.
pub proof fn lemma_winning_move_wins(piles: Seq<u32>, m: NimMove)
    requires
        m.0 < piles.len(),
        (piles[m.0 as int] ^ xor_fold(piles)) < piles[m.0 as int],
        m.1 == piles[m.0 as int] - (piles[m.0 as int] ^ xor_fold(piles)),
    ensures
        nim_legal(piles, m),
        xor_fold(nim_apply(piles, m)) == 0,
{
    let g = xor_fold(piles);
    let p = piles[m.0 as int];
    let t = p ^ g;
    lemma_xor_fold_update(piles, m.0 as int, t);
    assert((g ^ p) ^ (p ^ g) == 0) by (bit_vector);
    assert((p - m.1) as u32 == t);
}

/// Undoing the move just applied restores the exact prior state: the piles
/// are back to their old sizes, and popping the appended move restores the
/// history. (The turn is restored as well: `apply_move` and `undo_move` each
/// flip it once.)
pub proof fn lemma_undo_inverts_apply(piles: Seq<u32>, moves: Seq<NimMove>, m: NimMove)
    requires
        nim_legal(piles, m),
    ensures
        nim_unapply(nim_apply(piles, m), m) == piles,
        moves.push(m).drop_last() == moves,
        moves.push(m).last() == m,
{
    assert(nim_unapply(nim_apply(piles, m), m) =~= piles);
    assert(moves.push(m).drop_last() =~= moves);
}

/// Each move of `ms` is legal at the position reached by applying the moves
/// before it.
pub open spec fn nim_legal_seq(piles: Seq<u32>, ms: Seq<NimMove>) -> bool
    decreases ms.len(),
{
    ms.len() == 0 || (nim_legal(piles, ms.first()) && nim_legal_seq(
        nim_apply(piles, ms.first()),
        ms.drop_first(),
    ))
}

/// The piles reached by applying the moves of `ms` in order.
pub open spec fn nim_replay(piles: Seq<u32>, ms: Seq<NimMove>) -> Seq<u32>
    decreases ms.len(),
{
    if ms.len() == 0 {
        piles
    } else {
        nim_replay(nim_apply(piles, ms.first()), ms.drop_first())
    }
}

/// The piles reached by undoing the moves of `ms`, most recent first.
pub open spec fn nim_unwind_all(piles: Seq<u32>, ms: Seq<NimMove>) -> Seq<u32>
    decreases ms.len(),
{
    if ms.len() == 0 {
        piles
    } else {
        nim_unwind_all(nim_unapply(piles, ms.last()), ms.drop_last())
    }
}

/// Replaying one more move applies it to the replayed position.
proof fn lemma_replay_push(piles: Seq<u32>, ms: Seq<NimMove>, m: NimMove)
    ensures
        nim_replay(piles, ms.push(m)) == nim_apply(nim_replay(piles, ms), m),
    decreases ms.len(),
{
    if ms.len() == 0 {
        reveal_with_fuel(nim_replay, 2);
        assert(ms.push(m).first() == m);
        assert(ms.push(m).drop_first() =~= Seq::<NimMove>::empty());
    } else {
        assert(ms.push(m).first() == ms.first());
        assert(ms.push(m).drop_first() =~= ms.drop_first().push(m));
        lemma_replay_push(nim_apply(piles, ms.first()), ms.drop_first(), m);
    }
}

/// A move sequence with its last move split off is legal exactly when the
/// prefix is legal and the last move is legal at the replayed position.
proof fn lemma_legal_seq_push(piles: Seq<u32>, ms: Seq<NimMove>, m: NimMove)
    ensures
        nim_legal_seq(piles, ms.push(m)) <==> (nim_legal_seq(piles, ms) && nim_legal(
            nim_replay(piles, ms),
            m,
        )),
    decreases ms.len(),
{
    if ms.len() == 0 {
        reveal_with_fuel(nim_legal_seq, 2);
        assert(ms.push(m).first() == m);
        assert(ms.push(m).drop_first() =~= Seq::<NimMove>::empty());
    } else {
        assert(ms.push(m).first() == ms.first());
        assert(ms.push(m).drop_first() =~= ms.drop_first().push(m));
        lemma_legal_seq_push(nim_apply(piles, ms.first()), ms.drop_first(), m);
    }
}

/// Undo inverts apply over whole games: applying any legal move sequence and
/// then undoing every move of it, most recent first, reproduces the exact
/// prior piles. (The turn is likewise restored: it is flipped once per apply
/// and once per undo, `2 * ms.len()` times in all.)
pub proof fn lemma_unwind_inverts_replay(piles: Seq<u32>, ms: Seq<NimMove>)
    requires
        nim_legal_seq(piles, ms),
    ensures
        nim_unwind_all(nim_replay(piles, ms), ms) == piles,
    decreases ms.len(),
{
    if ms.len() > 0 {
        let ms0 = ms.drop_last();
        let m = ms.last();
        assert(ms0.push(m) =~= ms);
        lemma_legal_seq_push(piles, ms0, m);
        lemma_replay_push(piles, ms0, m);
        lemma_undo_inverts_apply(nim_replay(piles, ms0), ms0, m);
        lemma_unwind_inverts_replay(piles, ms0);
    }
}

/// The state invariant in replay form: from a well-formed state, undoing the
/// whole recorded history yields an initial configuration from which
/// replaying that history is legal and reproduces the current piles exactly.
pub proof fn lemma_wf_history_replays(piles: Seq<u32>, ms: Seq<NimMove>)
    requires
        nim_history_wf(piles, ms),
    ensures
        nim_legal_seq(nim_unwind_all(piles, ms), ms),
        nim_replay(nim_unwind_all(piles, ms), ms) == piles,
    decreases ms.len(),
{
    if ms.len() > 0 {
        let m = ms.last();
        let ms0 = ms.drop_last();
        let prev = nim_unapply(piles, m);
        lemma_wf_history_replays(prev, ms0);
        let init = nim_unwind_all(prev, ms0);
        assert(ms0.push(m) =~= ms);
        assert(nim_legal(prev, m));
        lemma_legal_seq_push(init, ms0, m);
        lemma_replay_push(init, ms0, m);
        assert(nim_apply(prev, m) =~= piles);
    }
}

} // verus!
