use ghostmate::board::{Board, BLACK, B_KING, B_KNIGHT, B_QUEEN, EMPTY, WHITE, W_KING, W_QUEEN, W_ROOK};
use ghostmate::eval::NO_ADJ;
use ghostmate::minimax::{best_move, search, INF, SEARCH_DEPTH};

#[test]
fn captures_hanging_queen() {
    // White queen on e4 can take an undefended black queen on e5.
    let mut b = Board::startpos();
    for sq in b.squares.iter_mut() {
        *sq = EMPTY;
    }
    b.squares[4] = W_KING; // e1
    b.squares[60] = B_KING; // e8
    b.squares[28] = W_QUEEN; // e4
    b.squares[36] = B_QUEEN; // e5 (undefended)
    b.side = WHITE;
    b.castling = 0;

    let mv = best_move(&b, &NO_ADJ);
    assert_eq!(mv.to_sq(), 36, "expected capture of hanging black queen on e5, got to={}", mv.to_sq());
}

#[test]
fn stalemate_detected() {
    // Black king cornered, white queen takes all its squares
    let mut b = Board::startpos();
    for sq in b.squares.iter_mut() {
        *sq = EMPTY;
    }
    b.squares[63] = B_KING; // h8
    b.squares[4] = W_KING; // e1
    b.squares[53] = W_QUEEN; // f7
    b.side = BLACK;
    b.castling = 0;

    let (mv, score) = search(&b, SEARCH_DEPTH, -INF, INF, &NO_ADJ);
    assert!(mv.is_null());
    assert_eq!(score, 0, "stalemate should score 0, got {}", score);
}

#[test]
fn best_move_not_null_from_startpos() {
    let b = Board::startpos();
    let mv = best_move(&b, &NO_ADJ);
    assert!(!mv.is_null());
    assert!(mv.from_sq() < 64);
    assert!(mv.to_sq() < 64);
}

#[test]
fn depth_zero_returns_null_move() {
    let b = Board::startpos();
    let (mv, _score) = search(&b, 0, -INF, INF, &NO_ADJ);
    assert!(mv.is_null());
}

#[test]
fn takes_free_queen() {
    // White rook can capture a hanging black queen
    let mut b = Board::startpos();
    for sq in b.squares.iter_mut() {
        *sq = EMPTY;
    }
    b.squares[4] = W_KING;
    b.squares[60] = B_KING;
    b.squares[0] = W_ROOK; // a1
    b.squares[56] = B_QUEEN; // a8 (undefended)
    b.side = WHITE;
    b.castling = 0;

    let mv = best_move(&b, &NO_ADJ);
    assert_eq!(mv.to_sq(), 56, "expected rook captures queen on a8");
}

// ── Further checks ──────────────────────────────────────────────────────────

#[test]
fn depth_zero_scores_static_evaluation() {
    let mut b = Board::startpos();
    b.squares[59] = EMPTY;
    let (_, score) = search(&b, 0, -INF, INF, &NO_ADJ);
    assert_eq!(score, 895);
}

#[test]
fn checkmated_side_scores_mate() {
    let mut b = Board::startpos();
    b = b.apply_move(ghostmate::board::Move::new(13, 21, 0));
    b = b.apply_move(ghostmate::board::Move::new(52, 36, 0));
    b = b.apply_move(ghostmate::board::Move::new(14, 30, 0));
    b = b.apply_move(ghostmate::board::Move::new(59, 31, 0));
    let (mv, score) = search(&b, 1, -INF, INF, &NO_ADJ);
    assert!(mv.is_null());
    assert_eq!(score, -INF + 2);
}

#[test]
fn one_ply_search_prefers_biggest_capture() {
    // The rook on d4 may take a queen on d8 or a knight on h4.
    let mut b = Board::startpos();
    for sq in b.squares.iter_mut() {
        *sq = EMPTY;
    }
    b.squares[0] = W_KING; // a1
    b.squares[63] = B_KING; // h8
    b.squares[27] = W_ROOK; // d4
    b.squares[59] = B_QUEEN; // d8
    b.squares[31] = B_KNIGHT; // h4
    b.castling = 0;
    let (mv, _) = search(&b, 1, -INF, INF, &NO_ADJ);
    assert_eq!(mv.from_sq(), 27);
    assert_eq!(mv.to_sq(), 59);
}

/// Plain negamax over the legal moves, with the same leaf, mate and stalemate scores.
fn plain_negamax(b: &Board, depth: u8) -> i32 {
    if depth == 0 {
        return ghostmate::eval::evaluate(b, &NO_ADJ);
    }
    let moves = ghostmate::moves::generate_legal(b);
    if moves.is_empty() {
        return if b.in_check(b.side) { -INF + (SEARCH_DEPTH - depth) as i32 } else { 0 };
    }
    let mut best = -INF;
    for mv in moves {
        let v = -plain_negamax(&b.apply_move(mv), depth - 1);
        if v > best {
            best = v;
        }
    }
    best
}

#[test]
fn full_window_search_matches_plain_negamax() {
    let mut b = Board::startpos();
    for (depth, mv) in [(2u8, (12u8, 28u8)), (2, (52, 36)), (2, (6, 21)), (2, (57, 42))] {
        let (_, score) = search(&b, depth, -INF, INF, &NO_ADJ);
        assert_eq!(score, plain_negamax(&b, depth));
        b = b.apply_move(ghostmate::board::Move::new(mv.0, mv.1, 0));
    }
    let (best, score) = search(&b, 2, -INF, INF, &NO_ADJ);
    assert_eq!(score, plain_negamax(&b, 2));
    assert_eq!(-plain_negamax(&b.apply_move(best), 1), score);
}

#[test]
fn checked_search_agrees_or_reports_overflow() {
    let b = Board::startpos();
    assert_eq!(ghostmate::minimax::search_checked(&b, 2, -INF, INF, &NO_ADJ), Some(search(&b, 2, -INF, INF, &NO_ADJ)));
    let mut adj = NO_ADJ;
    adj[0] = 300_000_000;
    assert_eq!(ghostmate::minimax::search_checked(&b, 1, -INF, INF, &adj), None);
}

#[test]
fn search_takes_any_window_at_a_leaf_or_a_mate() {
    let b = Board::startpos();
    assert_eq!(search(&b, 0, i32::MIN, i32::MIN, &NO_ADJ), (ghostmate::board::Move::null(), 0));
    let mut m = Board::startpos();
    m = m.apply_move(ghostmate::board::Move::new(13, 21, 0));
    m = m.apply_move(ghostmate::board::Move::new(52, 36, 0));
    m = m.apply_move(ghostmate::board::Move::new(14, 30, 0));
    m = m.apply_move(ghostmate::board::Move::new(59, 31, 0));
    assert_eq!(search(&m, 3, i32::MIN, i32::MIN, &NO_ADJ), (ghostmate::board::Move::null(), -INF));
    assert_eq!(ghostmate::minimax::search_checked(&b, 1, i32::MIN, INF, &NO_ADJ), None);
}

#[test]
fn full_window_search_returns_first_move_of_best_value() {
    let mut b = Board::startpos();
    for mv in [(12u8, 28u8), (52, 36)] {
        b = b.apply_move(ghostmate::board::Move::new(mv.0, mv.1, 0));
    }
    let (best, score) = search(&b, 2, -INF, INF, &NO_ADJ);
    let moves = ghostmate::moves::generate_legal(&b);
    let first = moves.iter().position(|m| -plain_negamax(&b.apply_move(*m), 1) == score).unwrap();
    assert_eq!(moves[first], best);
    assert!(moves[..first].iter().all(|m| -plain_negamax(&b.apply_move(*m), 1) < score));
}
