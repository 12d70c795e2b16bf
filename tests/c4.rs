use solver_core::game::{GameState, Player};
use solver_core::games::c4::{C4Cell, ConnectFourMove, ConnectFourState};
use solver_core::games::c4_bitboard::{parse_c4_move, BitboardState};
use solver_core::solvers::minimax::{minimax_best_move_ab_depth, minimax_value_ab_depth_root};

fn play(cols: &[u8]) -> ConnectFourState {
    let mut s = ConnectFourState::new();
    for &c in cols {
        s = s.apply_move(&ConnectFourMove { column: c });
    }
    s
}

#[test]
fn c4_array_new_is_empty() {
    let s = ConnectFourState::new();
    assert!(s.board.iter().all(|c| *c == C4Cell::Empty));
    assert_eq!(s.heights, [0; 7]);
    assert_eq!(s.current_player, Player::Player1);
    assert_eq!(s.legal_moves().len(), 7);
    assert_eq!(s.terminal_value(), None);
}

#[test]
fn c4_array_discs_fall_to_the_bottom() {
    let s = play(&[3, 3]);
    assert_eq!(s.board[5 * 7 + 3], C4Cell::P1);
    assert_eq!(s.board[4 * 7 + 3], C4Cell::P2);
    assert_eq!(s.heights[3], 2);
    assert_eq!(s.current_player, Player::Player1);
}

#[test]
fn c4_array_horizontal_win_for_player1() {
    let s = play(&[0, 6, 1, 6, 2, 6, 3]);
    assert!(s.is_terminal());
    assert_eq!(s.terminal_value(), Some(1));
}

#[test]
fn c4_array_vertical_win_for_player2() {
    let s = play(&[0, 6, 1, 6, 0, 6, 1, 6]);
    assert!(s.is_terminal());
    assert_eq!(s.terminal_value(), Some(-1));
    assert_eq!(s.heuristic_value(), -1);
}

#[test]
fn c4_array_diagonal_win_for_player1() {
    let s = play(&[0, 1, 1, 2, 2, 3, 2, 3, 3, 0, 3]);
    assert_eq!(s.terminal_value(), Some(1));
}

#[test]
fn c4_array_full_column_is_not_legal() {
    let s = play(&[2, 2, 2, 2, 2, 2]);
    let cols: Vec<u8> = s.legal_moves().iter().map(|m| m.column).collect();
    assert_eq!(cols, vec![0, 1, 3, 4, 5, 6]);
}

#[test]
fn c4_array_from_str_reads_rows_from_the_top() {
    let repr = format!("{}{}", ".".repeat(35), "XXXXOOO");
    let s = ConnectFourState::from_str(&repr, Player::Player2).unwrap();
    assert_eq!(s.board[35], C4Cell::P1);
    assert_eq!(s.board[41], C4Cell::P2);
    assert_eq!(s.heights, [1; 7]);
    assert_eq!(s.current_player, Player::Player2);
    assert_eq!(s.terminal_value(), Some(1));
}

#[test]
fn c4_array_from_str_rejects_bad_boards() {
    let floating = format!("{}{}{}", ".".repeat(28), "X......", ".......");
    assert!(ConnectFourState::from_str(&floating, Player::Player1).is_err());
    assert!(ConnectFourState::from_str(&".".repeat(41), Player::Player1).is_err());
    let bad_char = format!("{}{}", ".".repeat(41), "Z");
    assert!(ConnectFourState::from_str(&bad_char, Player::Player1).is_err());
    let empty = ConnectFourState::from_str(&".".repeat(42), Player::Player1).unwrap();
    assert_eq!(empty.heights, [0; 7]);
}

#[test]
fn c4_array_search_takes_the_win() {
    let s = play(&[0, 6, 1, 6, 2, 6]);
    let (m, v) = minimax_best_move_ab_depth(&s, 1).unwrap();
    assert_eq!(m.column, 3);
    assert_eq!(v, 1_000_000);
    assert_eq!(minimax_value_ab_depth_root(&s, 1), 1_000_000);
}

#[test]
fn c4_array_and_bitboard_agree_on_results() {
    let games: [&[u8]; 3] = [&[0, 6, 1, 6, 2, 6, 3], &[0, 6, 1, 6, 0, 6, 1, 6], &[3, 3, 4, 4]];
    for cols in games {
        let a = play(cols);
        let mut b = BitboardState::new();
        for &c in cols {
            b = b.apply_column_move(c);
        }
        assert_eq!(a.terminal_value(), b.terminal_value());
        assert_eq!(a.is_terminal(), b.is_terminal());
    }
}

#[test]
fn c4_parse_move_accepts_open_columns() {
    let s = BitboardState::new();
    assert_eq!(parse_c4_move("3", &s), Ok(3));
    assert_eq!(parse_c4_move(" 6\n", &s), Ok(6));
    assert_eq!(parse_c4_move("+0", &s), Ok(0));
}

#[test]
fn c4_parse_move_rejects_bad_input() {
    let mut s = BitboardState::new();
    for _ in 0..6 {
        s = s.apply_column_move(1);
    }
    assert!(parse_c4_move("1", &s).is_err());
    assert!(parse_c4_move("7", &s).is_err());
    assert!(parse_c4_move("x", &s).is_err());
    assert!(parse_c4_move("", &s).is_err());
    assert!(parse_c4_move("-2", &s).is_err());
}

#[test]
fn c4_disc_at_reports_owners() {
    let mut s = BitboardState::new();
    for c in [2u8, 2, 5] {
        s = s.apply_column_move(c);
    }
    assert_eq!(s.disc_at(0, 2), Some(Player::Player1));
    assert_eq!(s.disc_at(1, 2), Some(Player::Player2));
    assert_eq!(s.disc_at(0, 5), Some(Player::Player1));
    assert_eq!(s.disc_at(2, 2), None);
    assert_eq!(s.disc_at(0, 0), None);
}
