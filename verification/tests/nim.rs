use nim_hub::nim::{NimMove, NimState};

#[test]
fn nim_grundy_is_xor_of_piles() {
    let s = NimState::new(vec![3, 4, 5], true);
    assert_eq!(s.grundy_value(), 2); // 3 ^ 4 ^ 5 == 2
    let s = NimState::new(vec![7, 2, 1], true);
    assert_eq!(s.grundy_value(), 4); // 7 ^ 2 ^ 1 == 4
    let s = NimState::new(vec![1, 1], true);
    assert_eq!(s.grundy_value(), 0);
    let s = NimState::new(vec![0, 0, 0], true);
    assert_eq!(s.grundy_value(), 0);
}

#[test]
fn nim_scenario_three_four_five() {
    let mut s = NimState::new(vec![3, 4, 5], true);
    assert_eq!(s.grundy_value(), 2);
    // Pile 0 is the first XOR-reducible pile: 3 ^ 2 == 1 < 3, so remove 2.
    let m = s.optimal_move();
    assert_eq!(m, NimMove(0, 2));
    assert!(s.apply_move(m));
    assert_eq!(s.piles, vec![1, 4, 5]);
    assert_eq!(s.grundy_value(), 0);
    assert!(!s.turn);
    assert_eq!(s.moves.len(), 1);
}

#[test]
fn nim_all_zero_is_terminal() {
    let s = NimState::new(vec![0, 0, 0], true);
    assert!(s.is_game_over());
    let s = NimState::new(vec![0, 1, 0], true);
    assert!(!s.is_game_over());
}

#[test]
fn nim_scenario_apply_then_undo() {
    let mut s = NimState::new(vec![2, 3], true);
    assert!(s.apply_move(NimMove(0, 2)));
    assert_eq!(s.piles, vec![0, 3]);
    assert!(!s.turn);
    assert_eq!(s.moves.len(), 1);
    s.undo_move();
    assert_eq!(s.piles, vec![2, 3]);
    assert!(s.turn);
    assert!(s.moves.is_empty());
}

#[test]
fn nim_illegal_moves_leave_state_unchanged() {
    let rejected = [
        NimMove(0, 0), // removes nothing
        NimMove(0, 3), // more than pile 0 holds
        NimMove(2, 1), // pile index out of range
        NimMove(1, 1), // pile 1 is already empty
    ];
    for m in rejected {
        let mut s = NimState::new(vec![2, 0], true);
        assert!(!s.apply_move(m));
        assert_eq!(s.piles, vec![2, 0]);
        assert!(s.turn);
        assert!(s.moves.is_empty());
    }
}

#[test]
fn nim_turn_alternates_and_returns() {
    let mut s = NimState::new(vec![5, 5, 5], false);
    let moves = [NimMove(0, 1), NimMove(1, 2), NimMove(2, 3)];
    let mut expected = false;
    for m in moves {
        assert!(s.apply_move(m));
        expected = !expected;
        assert_eq!(s.turn, expected);
    }
    for _ in 0..moves.len() {
        s.undo_move();
        expected = !expected;
        assert_eq!(s.turn, expected);
    }
    assert!(!s.turn);
    assert_eq!(s.piles, vec![5, 5, 5]);
    assert!(s.moves.is_empty());
}

#[test]
fn nim_undo_on_empty_history_is_a_no_op() {
    let mut s = NimState::new(vec![1, 2], false);
    s.undo_move();
    assert_eq!(s.piles, vec![1, 2]);
    assert!(!s.turn);
    assert!(s.moves.is_empty());
}

#[test]
fn nim_optimal_move_drives_grundy_to_zero() {
    for piles in [vec![3, 4, 5], vec![7, 2, 1], vec![1, 2], vec![6, 6, 1]] {
        let mut s = NimState::new(piles, true);
        assert_ne!(s.grundy_value(), 0);
        let m = s.optimal_move();
        assert!(s.apply_move(m));
        assert_eq!(s.grundy_value(), 0);
    }
}

#[test]
fn nim_optimal_move_on_lost_position_takes_one_token() {
    // Grundy value zero: the fallback removes one token from the first
    // non-empty pile.
    let s = NimState::new(vec![0, 5, 5], true);
    assert_eq!(s.grundy_value(), 0);
    assert_eq!(s.optimal_move(), NimMove(1, 1));
    let s = NimState::new(vec![1, 1], true);
    assert_eq!(s.optimal_move(), NimMove(0, 1));
}

#[test]
fn nim_generated_games_stay_in_bounds() {
    for _ in 0..50 {
        let s = NimState::gen();
        assert!((3..=5).contains(&s.piles.len()));
        for &p in &s.piles {
            assert!((1..=6).contains(&p));
        }
        assert!(s.turn);
        assert!(s.moves.is_empty());
    }
}

#[test]
fn nim_full_game_between_solver_and_fixed_player() {
    // The solver moves from a winning position; it must win: it always hands
    // back Grundy value zero, and the fixed opponent can never restore it.
    let mut s = NimState::new(vec![3, 4, 5], false);
    let mut guard = 0;
    while !s.is_game_over() {
        let m = if s.turn {
            // A simple fixed player: one token from the first non-empty pile.
            let idx = s.piles.iter().position(|&p| p > 0).unwrap();
            NimMove(idx, 1)
        } else {
            s.optimal_move()
        };
        assert!(s.apply_move(m));
        if s.turn {
            // After each solver move the position is lost for the player.
            assert_eq!(s.grundy_value(), 0);
        }
        guard += 1;
        assert!(guard < 100);
    }
    // The solver removed the last token: it is the player's turn at the end.
    assert!(s.turn);
}
