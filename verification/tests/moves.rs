use ghostmate::board::{Board, Move, BLACK, B_KING, B_PAWN, EMPTY, WHITE, W_KING, W_PAWN};
use ghostmate::moves::{generate_legal, generate_pseudo_legal};

#[test]
fn startpos_white_has_20_moves() {
    let b = Board::startpos();
    let moves = generate_legal(&b);
    // 16 pawn moves + 4 knight moves = 20
    assert_eq!(moves.len(), 20, "expected 20 opening moves, got {}", moves.len());
}

#[test]
fn black_has_20_moves_after_e4() {
    let b = Board::startpos();
    let e4 = Move::new(12, 28, 0); // e2-e4
    let b2 = b.apply_move(e4);
    assert_eq!(b2.side, BLACK);
    let moves = generate_legal(&b2);
    assert_eq!(moves.len(), 20);
}

#[test]
fn no_moves_in_simple_checkmate() {
    // Fool's mate: 1.f3 e5 2.g4 Qh4#
    let mut b = Board::startpos();
    b = b.apply_move(Move::new(13, 21, 0)); // f2-f3
    b = b.apply_move(Move::new(52, 36, 0)); // e7-e5
    b = b.apply_move(Move::new(14, 30, 0)); // g2-g4
    b = b.apply_move(Move::new(59, 31, 0)); // Qd8-h4
    // White to move: checkmate
    assert!(b.in_check(WHITE));
    let moves = generate_legal(&b);
    assert_eq!(moves.len(), 0);
}

#[test]
fn captures_generated() {
    // A black pawn on e4 that white can capture from d3
    let mut b = Board::startpos();
    for sq in b.squares.iter_mut() {
        *sq = EMPTY;
    }
    b.squares[4] = W_KING;
    b.squares[60] = B_KING;
    b.squares[19] = W_PAWN; // d3
    b.squares[28] = B_PAWN; // e4
    b.side = WHITE;
    let moves = generate_legal(&b);
    let captures: Vec<_> = moves.iter().filter(|m| m.to_sq() == 28).collect();
    assert!(!captures.is_empty(), "expected at least one capture of e4 pawn");
}

#[test]
fn en_passant_generated() {
    let mut b = Board::startpos();
    for sq in b.squares.iter_mut() {
        *sq = EMPTY;
    }
    b.squares[4] = W_KING;
    b.squares[60] = B_KING;
    b.squares[36] = W_PAWN; // e5
    b.squares[37] = B_PAWN; // f5
    b.ep_sq = 45; // f6 (black just double-pushed f7-f5)
    b.side = WHITE;
    let moves = generate_legal(&b);
    let ep: Vec<_> = moves.iter().filter(|m| m.to_sq() == 45).collect();
    assert_eq!(ep.len(), 1, "expected one en-passant capture");
}

// ── Further checks ──────────────────────────────────────────────────────────

#[test]
fn startpos_generation_order() {
    let b = Board::startpos();
    let moves = generate_pseudo_legal(&b, WHITE);
    // The b1 knight comes first: b1-c3 (rank +2, file +1), then b1-a3.
    assert_eq!(moves[0], Move::new(1, 18, 0));
    assert_eq!(moves[1], Move::new(1, 16, 0));
    // Then the a2 pawn: a3, a4.
    assert_eq!(moves[4], Move::new(8, 16, 0));
    assert_eq!(moves[5], Move::new(8, 24, 0));
    assert_eq!(moves.len(), 20);
}

#[test]
fn promotion_generates_four_moves() {
    let mut b = Board::startpos();
    for sq in b.squares.iter_mut() {
        *sq = EMPTY;
    }
    b.squares[4] = W_KING;
    b.squares[56] = B_KING;
    b.squares[52] = W_PAWN; // e7
    let moves = generate_legal(&b);
    let promos: Vec<u8> = moves.iter().filter(|m| m.from_sq() == 52).map(|m| m.promo()).collect();
    assert_eq!(promos, vec![5, 4, 3, 2]);
}

#[test]
fn rook_slides_until_blocked() {
    let mut b = Board::startpos();
    for sq in b.squares.iter_mut() {
        *sq = EMPTY;
    }
    b.squares[0] = 4; // white rook a1
    b.squares[24] = 1; // own pawn a4 blocks
    b.squares[3] = 10; // black rook d1 can be taken
    let moves = generate_pseudo_legal(&b, WHITE);
    let rook: Vec<u8> = moves.iter().filter(|m| m.from_sq() == 0).map(|m| m.to_sq()).collect();
    assert_eq!(rook, vec![8, 16, 1, 2, 3]);
}

#[test]
fn castling_offered_when_path_is_clear() {
    let mut b = Board::startpos();
    b.squares[5] = EMPTY;
    b.squares[6] = EMPTY;
    let moves = generate_legal(&b);
    assert!(moves.contains(&Move::new(4, 6, 0)));
    assert!(!moves.contains(&Move::new(4, 2, 0)));
}

#[test]
fn no_king_is_never_in_check() {
    let mut b = Board::startpos();
    b.squares[4] = EMPTY;
    assert!(!b.in_check(WHITE));
    assert!(!Board::startpos().in_check(BLACK));
}

#[test]
fn pseudo_legal_moves_are_grouped_by_origin_without_repeats() {
    let mut b = Board::startpos();
    for mv in [(12u8, 28u8), (51, 35), (5, 26), (59, 27)] {
        b = b.apply_move(Move::new(mv.0, mv.1, 0));
    }
    for side in [WHITE, BLACK] {
        let moves = generate_pseudo_legal(&b, side);
        for i in 0..moves.len() {
            for j in i + 1..moves.len() {
                assert!(moves[i].from_sq() <= moves[j].from_sq());
                assert_ne!(moves[i], moves[j]);
            }
        }
    }
}

#[test]
fn pseudo_legal_moves_leave_own_square_and_promote_on_last_rank() {
    let mut b = Board::startpos();
    for sq in b.squares.iter_mut() {
        *sq = EMPTY;
    }
    b.squares[4] = W_KING;
    b.squares[60] = B_KING;
    b.squares[48] = W_PAWN; // a7, about to promote
    b.squares[15] = B_PAWN; // h2, about to promote
    b.castling = 0;
    for side in [WHITE, BLACK] {
        let moves = generate_pseudo_legal(&b, side);
        for m in &moves {
            let from = m.from_sq() as usize;
            assert_ne!(m.from_sq(), m.to_sq());
            assert!(Board::is_own(b.squares[from], side));
            assert!(!Board::is_own(b.squares[m.to_sq() as usize], side));
            if m.promo() != 0 {
                if side == WHITE {
                    assert_eq!((b.squares[from], m.to_sq() / 8), (W_PAWN, 7));
                } else {
                    assert_eq!((b.squares[from], m.to_sq() / 8), (B_PAWN, 0));
                }
            }
        }
        assert_eq!(moves.iter().filter(|m| m.promo() != 0).count(), 4);
    }
}

fn castling_board() -> Board {
    let mut b = Board::startpos();
    for sq in b.squares.iter_mut() {
        *sq = EMPTY;
    }
    b.squares[4] = W_KING;
    b.squares[7] = ghostmate::board::W_ROOK;
    b.squares[60] = B_KING;
    b.side = WHITE;
    b.castling = 0b0001;
    b
}

#[test]
fn castling_is_offered_when_safe() {
    let b = castling_board();
    assert!(generate_legal(&b).contains(&Move::new(4, 6, 0)));
}

#[test]
fn no_castling_out_of_check() {
    let mut b = castling_board();
    b.squares[36] = ghostmate::board::B_ROOK; // e5 gives check on the e-file
    assert!(!generate_legal(&b).contains(&Move::new(4, 6, 0)));
    assert!(!generate_pseudo_legal(&b, WHITE).contains(&Move::new(4, 6, 0)));
}

#[test]
fn no_castling_through_an_attacked_square() {
    let mut b = castling_board();
    b.squares[45] = ghostmate::board::B_ROOK; // f6 attacks f1
    assert!(!generate_legal(&b).contains(&Move::new(4, 6, 0)));
    // d-file attacks do not matter for kingside castling
    let mut c = castling_board();
    c.squares[43] = ghostmate::board::B_ROOK; // d6 attacks d1
    assert!(generate_legal(&c).contains(&Move::new(4, 6, 0)));
}

#[test]
fn black_pawn_promotes_to_black_pieces() {
    let mut b = Board::startpos();
    for sq in b.squares.iter_mut() {
        *sq = EMPTY;
    }
    b.squares[4] = W_KING;
    b.squares[60] = B_KING;
    b.squares[8] = B_PAWN; // a2
    b.side = BLACK;
    b.castling = 0;
    let from_a2: Vec<Move> = generate_pseudo_legal(&b, BLACK).into_iter().filter(|m| m.from_sq() == 8).collect();
    use_black_codes(&from_a2);
    let after = b.apply_move(Move::new(8, 0, ghostmate::board::B_QUEEN));
    assert_eq!(after.squares[0], ghostmate::board::B_QUEEN);
}

fn use_black_codes(moves: &[Move]) {
    let expected: Vec<Move> = [
        ghostmate::board::B_QUEEN,
        ghostmate::board::B_ROOK,
        ghostmate::board::B_BISHOP,
        ghostmate::board::B_KNIGHT,
    ]
    .iter()
    .map(|p| Move::new(8, 0, *p))
    .collect();
    assert_eq!(moves.to_vec(), expected);
}
