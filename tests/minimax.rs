use solver_core::game::{GameState, Player};
use solver_core::games::c4::ConnectFourState;
use solver_core::games::c4_bitboard::BitboardState;
use solver_core::games::ttt::TicTacToeState;
use solver_core::solvers::minimax::{
    minimax_best_move, minimax_best_move_ab_depth_inner, minimax_value, minimax_value_ab,
    minimax_value_ab_depth, minimax_value_ab_depth_root, minimax_value_ab_root,
};
use solver_core::utils::opposite_player;

#[test]
fn minimax_and_ab_agree_on_ttt_start() {
    let s = TicTacToeState::new();
    let v_plain = minimax_value(&s);
    let v_ab = minimax_value_ab_root(&s);
    assert_eq!(v_plain, v_ab);
}

#[test]
fn minimax_best_move_returns_same_value_as_value_function() {
    let s = TicTacToeState::new();
    let v_plain = minimax_value(&s);
    let (_mv, v_best) = minimax_best_move(&s).expect("there should be legal moves");
    assert_eq!(v_plain, v_best);
}

#[test]
fn depth_limited_search_matches_full_search_on_ttt_at_full_depth() {
    let s = TicTacToeState::new();
    let v_full = minimax_value_ab_root(&s);
    let v_depth = minimax_value_ab_depth_root(&s, 9);

    assert_eq!(v_depth, v_full * 1_000_000);
}

#[test]
fn c4_depth_zero_uses_heuristic() {
    let s = BitboardState::new();
    let v0 = minimax_value_ab_depth_root(&s, 0);
    let v1 = minimax_value_ab_depth_root(&s, 1);

    assert_eq!(v0, s.heuristic_value());
    assert!(v1 >= v0);
}

#[test]
fn opposite_player_is_involutive() {
    for p in [Player::Player1, Player::Player2] {
        assert_eq!(opposite_player(opposite_player(p)), p);
        assert_ne!(opposite_player(p), p);
    }
}

#[test]
fn full_depth_matches_exact_on_a_midgame_board() {
    let s = TicTacToeState::from_str("XOX.XO...", Player::Player2).unwrap();
    let exact = minimax_value(&s);
    assert_eq!(exact, 1);
    assert_eq!(minimax_value_ab_depth_root(&s, 9), exact * 1_000_000);
    assert_eq!(minimax_value_ab_root(&s), exact);
}

#[test]
fn alpha_beta_window_bounds() {
    let s = TicTacToeState::from_str("XOX.XO...", Player::Player2).unwrap();
    // Exact value 1: a window above it fails low, one below it fails high.
    let low = minimax_value_ab(&s, 1, 5);
    assert!(low <= 1);
    let high = minimax_value_ab(&s, -5, 0);
    assert!(high >= 0);
    let inside = minimax_value_ab(&s, -2, 2);
    assert_eq!(inside, 1);
    let depth_inside = minimax_value_ab_depth(&s, 9, -2_000_000, 2_000_000);
    assert_eq!(depth_inside, 1_000_000);
}

#[test]
fn best_move_depth_inner_inside_window_is_exact() {
    let s = TicTacToeState::from_str("XX.OO....", Player::Player1).unwrap();
    let (m, v) = minimax_best_move_ab_depth_inner(&s, 9, -2_000_000, 2_000_000).unwrap();
    assert_eq!(m.index, 2);
    assert_eq!(v, 1_000_000);
}

#[test]
fn c4_depth_two_search_blocks_or_wins() {
    let mut s = BitboardState::new();
    for c in [0u8, 6, 1, 6, 2] {
        s = s.apply_move(&c);
    }
    // Player2 must block column 3.
    let (m, _v) = solver_core::solvers::minimax::minimax_best_move_ab_depth(&s, 2).unwrap();
    assert_eq!(m, 3);
}

#[test]
fn default_states_are_the_starting_positions() {
    let t = TicTacToeState::default();
    assert_eq!(t.legal_moves().len(), 9);
    assert_eq!(t.current_player, Player::Player1);
    let b = BitboardState::default();
    assert_eq!((b.player_bb, b.mask_bb, b.heights), (0, 0, [0; 7]));
    let c = ConnectFourState::default();
    assert_eq!(c.heights, [0; 7]);
}

#[test]
fn depth_search_scores_finished_games_whatever_the_window() {
    let s = TicTacToeState::from_str("XXX.OO...", Player::Player2).unwrap();
    assert_eq!(minimax_value_ab_depth(&s, 3, 0, 5), 1_000_000);
    assert_eq!(minimax_value_ab_depth(&s, 0, -10, -5), 1_000_000);
    let b = BitboardState::new().apply_column_move(3);
    assert_eq!(minimax_value_ab_depth(&b, 0, 100, 200), b.heuristic_value());
    assert_eq!(minimax_value_ab_depth(&b, 0, 100, 200), 7);
}

#[test]
fn windowed_best_move_reports_the_windowed_value() {
    let t = TicTacToeState::from_str("XOX.XO...", Player::Player2).unwrap();
    for (alpha, beta) in [(-5, 5), (1, 5), (-5, 0), (-2_000_000, 2_000_000), (0, 1)] {
        let (_m, v) = minimax_best_move_ab_depth_inner(&t, 9, alpha, beta).unwrap();
        assert_eq!(v, minimax_value_ab_depth(&t, 9, alpha, beta));
    }
    let mut b = BitboardState::new();
    for c in [3u8, 3, 2] {
        b = b.apply_column_move(c);
    }
    for (alpha, beta) in [(-50, 50), (0, 10), (i32::MIN, i32::MAX)] {
        let (_m, v) = minimax_best_move_ab_depth_inner(&b, 2, alpha, beta).unwrap();
        assert_eq!(v, minimax_value_ab_depth(&b, 2, alpha, beta));
    }
}

#[test]
fn alpha_beta_fails_soft() {
    // Exact value 1 (a win for Player1 with best play).
    let s = TicTacToeState::from_str("XOX.XO...", Player::Player2).unwrap();
    let high = minimax_value_ab(&s, -5, 0);
    assert!(high >= 0 && 1 >= high);
    // Exact value 0 from the start: a window above it fails low with an upper bound.
    let start = TicTacToeState::new();
    let low = minimax_value_ab(&start, 0, 5);
    assert!(low <= 0 && 0 <= low);
}
