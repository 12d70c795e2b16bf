use solver_core::game::{GameState, Player};
use solver_core::games::ttt::{cell_to_char, parse_ttt_move, Cell, TicTacToeMove, TicTacToeState};
use solver_core::solvers::minimax::{
    minimax_best_move, minimax_best_move_ab, minimax_best_move_ab_depth, minimax_value,
    minimax_value_ab_depth_root, minimax_value_ab_root,
};

#[test]
fn ttt_from_str_parses_correctly() {
    let s = TicTacToeState::from_str("X.O...O..", Player::Player1).unwrap();
    assert_eq!(s.board[0], Cell::X);
    assert_eq!(s.board[1], Cell::Empty);
    assert_eq!(s.board[2], Cell::O);
    assert_eq!(s.board[7], Cell::Empty);
    assert_eq!(s.current_player, Player::Player1);
}

#[test]
fn ttt_from_str_rejects_invalid_char() {
    let res = TicTacToeState::from_str("X.Z...O..", Player::Player1);
    assert!(res.is_err());
}

#[test]
fn ttt_from_str_rejects_wrong_length() {
    let too_short = TicTacToeState::from_str("XOX.....", Player::Player1);
    assert!(too_short.is_err());

    let too_long = TicTacToeState::from_str("XOX...O..X", Player::Player1);
    assert!(too_long.is_err());
}

#[test]
fn ttt_terminal_value_x_win_row() {
    let s = TicTacToeState::from_str("XXX......", Player::Player2).unwrap();
    assert!(s.is_terminal());
    assert_eq!(s.terminal_value(), Some(1));
}

#[test]
fn ttt_terminal_value_o_win_diag() {
    let s = TicTacToeState::from_str("XO.XO..O.", Player::Player1).unwrap();
    assert!(s.is_terminal());
    assert_eq!(s.terminal_value(), Some(-1));
}

#[test]
fn ttt_terminal_value_draw() {
    let s = TicTacToeState::from_str("XOXXOOOXX", Player::Player1).unwrap();
    assert!(s.is_terminal());
    assert_eq!(s.terminal_value(), Some(0));
}

#[test]
fn ttt_non_terminal_has_no_terminal_value() {
    let s = TicTacToeState::from_str("X.O...O..", Player::Player2).unwrap();
    assert!(!s.is_terminal());
    assert_eq!(s.terminal_value(), None);
}

#[test]
fn ttt_minimax_value_start_position_is_draw() {
    let s = TicTacToeState::new();
    assert_eq!(minimax_value(&s), 0);
    assert_eq!(minimax_value_ab_root(&s), 0);
}

#[test]
fn ttt_minimax_and_ab_agree_on_random_position() {
    let s = TicTacToeState::from_str("XOX.XO...", Player::Player2).unwrap();
    let v1 = minimax_value(&s);
    let v2 = minimax_value_ab_root(&s);
    assert_eq!(v1, v2);
}

#[test]
fn ttt_move_ordering_prefers_center_over_corner() {
    let s = TicTacToeState::new();
    let center = TicTacToeMove { index: 4 };
    let corner = TicTacToeMove { index: 0 };
    assert!(s.move_ordering_key(&center) > s.move_ordering_key(&corner));
}

#[test]
fn ttt_move_ordering_keys_exact() {
    let s = TicTacToeState::new();
    assert_eq!(s.move_ordering_key(&TicTacToeMove { index: 4 }), 3);
    assert_eq!(s.move_ordering_key(&TicTacToeMove { index: 8 }), 2);
    assert_eq!(s.move_ordering_key(&TicTacToeMove { index: 5 }), 1);
}

#[test]
fn ttt_terminal_states_have_values_and_live_ones_do_not() {
    for repr in ["XXX......", "XO.XO..O.", "XOXXOOOXX", "X.O...O..", ".........", "XOX.XO..."] {
        let s = TicTacToeState::from_str(repr, Player::Player1).unwrap();
        assert_eq!(s.is_terminal(), s.terminal_value().is_some());
    }
}

#[test]
fn ttt_legal_moves_are_the_empty_cells() {
    let s = TicTacToeState::from_str("X.O...O..", Player::Player2).unwrap();
    let idx: Vec<u8> = s.legal_moves().iter().map(|m| m.index).collect();
    assert_eq!(idx, vec![1, 3, 4, 5, 7, 8]);
}

#[test]
fn ttt_apply_move_marks_cell_and_switches_player() {
    let s = TicTacToeState::new();
    let t = s.apply_move(&TicTacToeMove { index: 4 });
    assert_eq!(t.board[4], Cell::X);
    assert_eq!(t.current_player, Player::Player2);
    assert_eq!(s.board[4], Cell::Empty);
    let u = t.apply_move(&TicTacToeMove { index: 0 });
    assert_eq!(u.board[0], Cell::O);
    assert_eq!(u.current_player, Player::Player1);
}

#[test]
fn ttt_heuristic_is_outcome_or_zero() {
    let won = TicTacToeState::from_str("XO.XO..O.", Player::Player1).unwrap();
    assert_eq!(won.heuristic_value(), -1);
    assert_eq!(TicTacToeState::new().heuristic_value(), 0);
}

#[test]
fn ttt_board_string_round_trip() {
    let repr = "XO..X.O.X";
    let s = TicTacToeState::from_str(repr, Player::Player2).unwrap();
    let shown: String = s.board.iter().map(|c| cell_to_char(*c)).collect();
    assert_eq!(shown, repr);
}

#[test]
fn ttt_from_str_rejects_non_ascii_and_empty() {
    assert!(TicTacToeState::from_str("", Player::Player1).is_err());
    assert!(TicTacToeState::from_str("X.O...O.é", Player::Player1).is_err());
    assert!(TicTacToeState::from_str("x........", Player::Player1).is_err());
}

#[test]
fn ttt_best_move_takes_the_win() {
    let s = TicTacToeState::from_str("XX.OO....", Player::Player1).unwrap();
    let (m, v) = minimax_best_move(&s).unwrap();
    assert_eq!((m.index, v), (2, 1));
    let (m, v) = minimax_best_move_ab(&s).unwrap();
    assert_eq!((m.index, v), (2, 1));
    let (m, v) = minimax_best_move_ab_depth(&s, 9).unwrap();
    assert_eq!((m.index, v), (2, 1_000_000));
}

#[test]
fn ttt_best_move_none_without_moves() {
    let s = TicTacToeState::from_str("XOXXOOOXX", Player::Player1).unwrap();
    assert!(minimax_best_move(&s).is_none());
    assert!(minimax_best_move_ab(&s).is_none());
    assert!(minimax_best_move_ab_depth(&s, 3).is_none());
}

#[test]
fn ttt_forced_win_for_player2() {
    let s = TicTacToeState::from_str("XX.OO.X..", Player::Player2).unwrap();
    assert_eq!(minimax_value(&s), -1);
    assert_eq!(minimax_value_ab_root(&s), -1);
    assert_eq!(minimax_value_ab_depth_root(&s, 9), -1_000_000);
}

#[test]
fn ttt_parse_move_accepts_an_empty_cell() {
    let s = TicTacToeState::new();
    assert_eq!(parse_ttt_move("4", &s).unwrap().index, 4);
    assert_eq!(parse_ttt_move("  7\n", &s).unwrap().index, 7);
    assert_eq!(parse_ttt_move("+0", &s).unwrap().index, 0);
    assert_eq!(parse_ttt_move("0008", &s).unwrap().index, 8);
}

#[test]
fn ttt_parse_move_rejects_bad_input() {
    let s = TicTacToeState::from_str("X........", Player::Player2).unwrap();
    assert!(parse_ttt_move("0", &s).is_err());
    assert!(parse_ttt_move("9", &s).is_err());
    assert!(parse_ttt_move("-1", &s).is_err());
    assert!(parse_ttt_move("abc", &s).is_err());
    assert!(parse_ttt_move("", &s).is_err());
    assert!(parse_ttt_move("+", &s).is_err());
    assert!(parse_ttt_move("4 5", &s).is_err());
    assert!(parse_ttt_move("99999999999999999999999", &s).is_err());
}

#[test]
fn ttt_move_ordering_key_ignores_the_board() {
    let s = TicTacToeState::from_str("X...O...X", Player::Player2).unwrap();
    assert_eq!(s.move_ordering_key(&TicTacToeMove { index: 0 }), 2);
    assert_eq!(s.move_ordering_key(&TicTacToeMove { index: 4 }), 3);
    assert_eq!(s.move_ordering_key(&TicTacToeMove { index: 1 }), 1);
}
