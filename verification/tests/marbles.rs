use nim_hub::marbles::{MarblesMove, MarblesState};

#[test]
fn marbles_grundy_is_pile_mod_four() {
    for (pile, grundy) in [(0, 0), (1, 1), (2, 2), (3, 3), (4, 0), (10, 2), (20, 0)] {
        let s = MarblesState::new(pile, true);
        assert_eq!(s.grundy_value(), grundy);
    }
}

#[test]
fn marbles_scenario_pile_of_ten() {
    let mut s = MarblesState::new(10, true);
    assert_eq!(s.grundy_value(), 2);
    let m = s.optimal_move();
    assert_eq!(m, MarblesMove(2));
    assert!(s.apply_move(m));
    assert_eq!(s.pile_amt, 8);
    assert_eq!(s.grundy_value(), 0);
}

#[test]
fn marbles_scenario_overdraw_rejected() {
    let mut s = MarblesState::new(1, true);
    assert!(!s.apply_move(MarblesMove(3)));
    assert_eq!(s.pile_amt, 1);
    assert!(s.turn);
    assert!(s.moves.is_empty());
}

#[test]
fn marbles_illegal_moves_leave_state_unchanged() {
    // Removes nothing, over the per-turn cap, over the pile size.
    for m in [MarblesMove(0), MarblesMove(4), MarblesMove(3)] {
        let mut s = MarblesState::new(2, false);
        assert!(!s.apply_move(m));
        assert_eq!(s.pile_amt, 2);
        assert!(!s.turn);
        assert!(s.moves.is_empty());
    }
}

#[test]
fn marbles_terminal_exactly_when_empty() {
    assert!(MarblesState::new(0, true).is_game_over());
    assert!(!MarblesState::new(1, true).is_game_over());
    assert!(!MarblesState::new(17, false).is_game_over());
}

#[test]
fn marbles_apply_then_undo_restores_state() {
    let mut s = MarblesState::new(15, true);
    assert!(s.apply_move(MarblesMove(3)));
    assert_eq!(s.pile_amt, 12);
    assert!(!s.turn);
    assert_eq!(s.moves.len(), 1);
    s.undo_move();
    assert_eq!(s.pile_amt, 15);
    assert!(s.turn);
    assert!(s.moves.is_empty());
}

#[test]
fn marbles_turn_alternates_and_returns() {
    let mut s = MarblesState::new(12, true);
    let moves = [MarblesMove(1), MarblesMove(2), MarblesMove(3)];
    let mut expected = true;
    for m in moves {
        assert!(s.apply_move(m));
        expected = !expected;
        assert_eq!(s.turn, expected);
    }
    for _ in 0..moves.len() {
        s.undo_move();
        expected = !expected;
        assert_eq!(s.turn, expected);
    }
    assert!(s.turn);
    assert_eq!(s.pile_amt, 12);
    assert!(s.moves.is_empty());
}

#[test]
fn marbles_undo_on_empty_history_is_a_no_op() {
    let mut s = MarblesState::new(9, false);
    s.undo_move();
    assert_eq!(s.pile_amt, 9);
    assert!(!s.turn);
    assert!(s.moves.is_empty());
}

#[test]
fn marbles_optimal_move_drives_grundy_to_zero() {
    for pile in [1, 2, 3, 5, 10, 13, 19] {
        let mut s = MarblesState::new(pile, true);
        assert_ne!(s.grundy_value(), 0);
        let m = s.optimal_move();
        assert_eq!(m, MarblesMove(pile % 4));
        assert!(s.apply_move(m));
        assert_eq!(s.grundy_value(), 0);
    }
}

#[test]
fn marbles_optimal_move_on_lost_position_takes_one_token() {
    for pile in [4, 8, 16, 20] {
        let s = MarblesState::new(pile, true);
        assert_eq!(s.grundy_value(), 0);
        assert_eq!(s.optimal_move(), MarblesMove(1));
    }
}

#[test]
fn marbles_generated_games_stay_in_bounds() {
    for _ in 0..50 {
        let s = MarblesState::gen();
        assert!((10..=20).contains(&s.pile_amt));
        assert!(s.turn);
        assert!(s.moves.is_empty());
    }
}

#[test]
fn marbles_full_game_between_solver_and_fixed_player() {
    // From a position that is winning for the solver, the solver must win.
    let mut s = MarblesState::new(13, false);
    let mut guard = 0;
    while !s.is_game_over() {
        let m = if s.turn { MarblesMove(1) } else { s.optimal_move() };
        assert!(s.apply_move(m));
        if s.turn {
            assert_eq!(s.grundy_value(), 0);
        }
        guard += 1;
        assert!(guard < 100);
    }
    assert!(s.turn);
}
