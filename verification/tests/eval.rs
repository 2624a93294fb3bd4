use ghostmate::board::{Board, BLACK};
use ghostmate::eval::{decode_weight, encode_weight, evaluate, evaluate_abs, NO_ADJ};

#[test]
fn startpos_is_roughly_equal() {
    let b = Board::startpos();
    // Zero for the symmetric position
    let score = evaluate_abs(&b, &NO_ADJ);
    assert!(score.abs() < 10, "startpos score = {}", score);
}

#[test]
fn material_advantage_detected() {
    let mut b = Board::startpos();
    // Remove the black queen: white is up about 900
    b.squares[59] = 0; // black queen on d8
    let score = evaluate_abs(&b, &NO_ADJ);
    assert!(score > 800 && score < 1200, "score after removing black queen = {}", score);
}

#[test]
fn weight_adjustment_applied() {
    let b = Board::startpos();
    let mut adj = NO_ADJ;
    adj[0] = 50; // bonus for pawns (index 0 = W_PAWN-1)
    let base = evaluate_abs(&b, &NO_ADJ);
    let bonus = evaluate_abs(&b, &adj);
    // Both sides have 8 pawns, so white gets +400, black gets -400: net 0
    assert_eq!(base, bonus, "symmetric board: adj cancels out");
}

#[test]
fn decode_encode_weight_roundtrip() {
    for offset in [-128i32, -64, 0, 64, 127] {
        let encoded = encode_weight(offset);
        let decoded = decode_weight(encoded);
        assert_eq!(decoded, offset);
    }
}

// ── Further checks ──────────────────────────────────────────────────────────

#[test]
fn encode_weight_clamps_and_offsets() {
    assert_eq!(encode_weight(-500), 0);
    assert_eq!(encode_weight(500), 255);
    assert_eq!(encode_weight(1), 129);
    assert_eq!(decode_weight(0), -128);
    assert_eq!(decode_weight(255), 127);
}

#[test]
fn evaluation_exact_values() {
    let mut b = Board::startpos();
    b.squares[59] = 0;
    // black queen d8: mirrored square d1 -> table value -5; 900 - 5 = 895 removed
    assert_eq!(evaluate_abs(&b, &NO_ADJ), 895);
    b.side = BLACK;
    assert_eq!(evaluate(&b, &NO_ADJ), -895);
    let mut lone = Board::startpos();
    for sq in lone.squares.iter_mut() {
        *sq = 0;
    }
    lone.squares[28] = 1; // white pawn e4: 100 + 25
    assert_eq!(evaluate_abs(&lone, &NO_ADJ), 125);
    let mut adj = NO_ADJ;
    adj[0] = 7;
    assert_eq!(evaluate_abs(&lone, &adj), 132);
}

#[test]
fn checked_evaluation_matches_evaluate() {
    let mut b = Board::startpos();
    assert_eq!(ghostmate::eval::evaluate_checked(&b, &NO_ADJ), Some(evaluate(&b, &NO_ADJ)));
    b.side = BLACK;
    b.squares[3] = 0; // white queen gone
    assert_eq!(ghostmate::eval::evaluate_checked(&b, &NO_ADJ), Some(evaluate(&b, &NO_ADJ)));
    assert!(evaluate(&b, &NO_ADJ) > 0);
}

#[test]
fn checked_evaluation_detects_overflow() {
    let b = Board::startpos();
    let mut adj = NO_ADJ;
    adj[0] = 300_000_000; // eight pawns overflow the running sum
    assert_eq!(ghostmate::eval::evaluate_checked(&b, &adj), None);
    let mut adj = NO_ADJ;
    adj[5] = i32::MAX - 100; // a single king's contribution overflows
    assert_eq!(ghostmate::eval::evaluate_checked(&b, &adj), None);
}

#[test]
fn colour_flip_negates_the_evaluation() {
    let mut b = Board::startpos();
    b.squares[3] = 0; // white queen gone
    b.squares[52] = 0; // black e-pawn gone
    let mut flipped = b;
    for s in 0..64usize {
        let p = b.squares[(7 - s / 8) * 8 + s % 8];
        flipped.squares[s] = if (1..=6).contains(&p) { p + 6 } else if (7..=12).contains(&p) { p - 6 } else { p };
    }
    let mut adj = NO_ADJ;
    adj[1] = 40;
    adj[4] = -70;
    assert_eq!(evaluate_abs(&flipped, &adj), -evaluate_abs(&b, &adj));
    assert_ne!(evaluate_abs(&b, &adj), 0);
}

#[test]
fn start_position_evaluates_to_zero_for_any_weights() {
    let b = Board::startpos();
    let mut adj = NO_ADJ;
    adj[0] = 50;
    assert_eq!(evaluate_abs(&b, &NO_ADJ), 0);
    assert_eq!(evaluate_abs(&b, &adj), 0);
}
