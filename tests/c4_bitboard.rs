use solver_core::game::{GameState, Player};
use solver_core::games::c4_bitboard::{BitboardState, COLS, ROWS};
use solver_core::solvers::minimax::{minimax_best_move_ab_depth, minimax_value_ab_depth_root};

fn play_sequence(cols: &[u8]) -> BitboardState {
    let mut s = BitboardState::new();
    for &c in cols {
        s = s.apply_column_move(c);
    }
    s
}

#[test]
fn c4_next_bit_matches_heights() {
    let s = BitboardState::new();
    let bit0 = s.next_bit(0);
    assert_eq!(bit0, 1u64 << 0);

    let s2 = s.apply_column_move(0);
    let bit1 = s2.next_bit(0);
    assert_eq!(bit1, 1u64 << 1);
}

#[test]
fn c4_horizontal_win_detection_for_player1() {
    let s = play_sequence(&[0, 6, 1, 6, 2, 6, 3]);
    assert!(s.check_win(s.player_bb));
    assert!(s.is_terminal());
    assert_eq!(s.terminal_value(), Some(1));
}

#[test]
fn c4_vertical_win_detection_for_player1() {
    let s = play_sequence(&[0, 6, 0, 6, 0, 6, 0]);
    assert!(s.check_win(s.player_bb));
    assert!(s.is_terminal());
    assert_eq!(s.terminal_value(), Some(1));
}

#[test]
fn c4_diagonal_down_right_win_detection_for_player1() {
    let s = play_sequence(&[0, 1, 1, 2, 2, 3, 2, 3, 3, 0, 3]);
    assert!(s.check_win(s.player_bb));
    assert!(s.is_terminal());
    assert_eq!(s.terminal_value(), Some(1));
}

#[test]
fn c4_is_full_when_all_columns_full() {
    let mut s = BitboardState::new();
    for col in 0..COLS {
        for _ in 0..ROWS {
            s = s.apply_column_move(col);
        }
    }
    assert!(s.is_full());
    assert!(s.terminal_value().is_some());
}

#[test]
fn c4_move_ordering_prefers_winning_move() {
    let s = play_sequence(&[0, 6, 1, 6, 2, 6]);
    let win_key = s.move_ordering_key(&3u8);
    let other_key = s.move_ordering_key(&0u8);
    assert!(win_key > other_key);
}

#[test]
fn c4_depth_limited_search_prefers_winning_move() {
    let s = play_sequence(&[0, 6, 1, 6, 2, 6]);
    let (best_move, value) = minimax_best_move_ab_depth(&s, 1).expect("should have moves");
    assert_eq!(best_move, 3u8);
    assert!(value > 0);
}

#[test]
fn c4_heuristic_is_symmetric_for_empty_board() {
    let s = BitboardState::new();
    assert_eq!(s.heuristic_value(), 0);
}

#[test]
fn c4_move_ordering_keys_exact() {
    let s = play_sequence(&[0, 6, 1, 6, 2, 6]);
    assert_eq!(s.move_ordering_key_connect4(3), 1_000_000);
    assert_eq!(s.move_ordering_key_connect4(0), 3);
    assert_eq!(s.move_ordering_key_connect4(4), 5);
    // Player2 to move: column 3 blocks Player1's win; two discs of Player2
    // in column 6 do not win yet.
    let t = play_sequence(&[0, 6, 1, 6, 2]);
    assert_eq!(t.move_ordering_key_connect4(3), 10_000);
    assert_eq!(t.move_ordering_key_connect4(6), 3);
    assert_eq!(t.move_ordering_key_connect4(5), 4);
    // Player2 to move with three discs in column 6: column 6 wins at once.
    let u = play_sequence(&[0, 6, 1, 6, 4, 6, 5]);
    assert_eq!(u.move_ordering_key_connect4(6), 1_000_000);
}

#[test]
fn c4_evaluate_exact_values() {
    let s = play_sequence(&[3]);
    assert_eq!(s.evaluate(), 7);
    let t = play_sequence(&[0, 6, 1]);
    assert_eq!(t.evaluate(), 14);
    let won = play_sequence(&[0, 6, 0, 6, 0, 6, 0]);
    assert_eq!(won.evaluate(), 1_000_000);
}

#[test]
fn c4_player2_win_is_minus_one() {
    let s = play_sequence(&[0, 6, 1, 6, 2, 6, 5, 6]);
    assert!(s.check_win(s.mask_bb ^ s.player_bb));
    assert_eq!(s.terminal_value(), Some(-1));
    assert_eq!(s.evaluate(), -1_000_000);
}

#[test]
fn c4_apply_column_move_updates_fields() {
    let s = BitboardState::new();
    let t = s.apply_column_move(2);
    assert_eq!(t.mask_bb, 1u64 << 14);
    assert_eq!(t.player_bb, 1u64 << 14);
    assert_eq!(t.heights[2], 1);
    assert_eq!(t.current_player, Player::Player2);
    let u = t.apply_column_move(2);
    assert_eq!(u.mask_bb, (1u64 << 14) | (1u64 << 15));
    assert_eq!(u.player_bb, 1u64 << 14);
    assert_eq!(u.heights[2], 2);
    assert_eq!(u.current_player, Player::Player1);
}

#[test]
fn c4_legal_moves_skip_full_columns() {
    let s = play_sequence(&[4, 4, 4, 4, 4, 4]);
    assert_eq!(s.legal_moves(), vec![0, 1, 2, 3, 5, 6]);
    assert!(!s.is_full());
}

#[test]
fn c4_check_win_does_not_wrap_columns() {
    let s = BitboardState::new();
    // Rows 3..5 of column 0 and row 0 of column 1 are consecutive bits around
    // the sentinel bit 6, which is never set.
    let bb = (1u64 << 3) | (1u64 << 4) | (1u64 << 5) | (1u64 << 7);
    assert!(!s.check_win(bb));
    let diag_up = (1u64 << 3) | (1u64 << 9) | (1u64 << 15) | (1u64 << 21);
    assert!(s.check_win(diag_up));
}

#[test]
fn c4_depth_one_finds_win_for_player2() {
    let s = play_sequence(&[0, 6, 1, 6, 2, 6, 5]);
    let (m, v) = minimax_best_move_ab_depth(&s, 1).unwrap();
    assert_eq!(m, 6);
    assert_eq!(v, -1_000_000);
    assert_eq!(minimax_value_ab_depth_root(&s, 1), -1_000_000);
}

#[test]
fn c4_terminal_iff_value_along_a_game() {
    let cols = [3, 3, 2, 4, 1, 5, 0];
    let mut s = BitboardState::new();
    assert_eq!(s.is_terminal(), s.terminal_value().is_some());
    for c in cols {
        s = s.apply_column_move(c);
        assert_eq!(s.is_terminal(), s.terminal_value().is_some());
    }
    assert_eq!(s.terminal_value(), Some(1));
}
