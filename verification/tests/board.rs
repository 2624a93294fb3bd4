use ghostmate::board::{Board, Move, BLACK, B_KING, EMPTY, W_KING, W_PAWN, W_QUEEN};

#[test]
fn startpos_piece_count() {
    let b = Board::startpos();
    let whites: u8 = b.squares.iter().filter(|&&p| Board::is_white_piece(p)).count() as u8;
    let blacks: u8 = b.squares.iter().filter(|&&p| Board::is_black_piece(p)).count() as u8;
    assert_eq!(whites, 16);
    assert_eq!(blacks, 16);
}

#[test]
fn startpos_kings_on_correct_squares() {
    let b = Board::startpos();
    assert_eq!(b.squares[4], W_KING);
    assert_eq!(b.squares[60], B_KING);
}

#[test]
fn board_word_roundtrip() {
    let b = Board::startpos();
    let bw = b.to_board_word();
    let fw = b.to_flags_word();
    let b2 = Board::from_words(bw, fw);
    assert_eq!(b.squares, b2.squares);
    assert_eq!(b.side, b2.side);
    assert_eq!(b.castling, b2.castling);
}

#[test]
fn apply_e2e4_double_pawn_push() {
    let b = Board::startpos();
    // e2 = square 12 (rank 1, file 4), e4 = square 28
    let mv = Move::new(12, 28, 0);
    let b2 = b.apply_move(mv);
    assert_eq!(b2.squares[12], EMPTY);
    assert_eq!(b2.squares[28], W_PAWN);
    assert_eq!(b2.ep_sq, 20); // e3
    assert_eq!(b2.side, BLACK);
}

#[test]
fn apply_promotion() {
    let mut b = Board::startpos();
    // A white pawn on e7 (sq 52)
    b.squares[52] = W_PAWN;
    b.squares[12] = EMPTY;
    b.squares[60] = EMPTY; // remove the black king from e8
    let mv = Move::new(52, 60, W_QUEEN);
    let b2 = b.apply_move(mv);
    assert_eq!(b2.squares[60], W_QUEEN);
    assert_eq!(b2.squares[52], EMPTY);
}

#[test]
fn castling_rights_revoked_on_rook_move() {
    let b = Board::startpos();
    // Move the h1 rook (sq 7) away
    let mv = Move::new(7, 15, 0); // not legal but exercises the castling bookkeeping
    let b2 = b.apply_move(mv);
    assert_eq!(b2.castling & 0b0001, 0); // WK castling gone
    assert_ne!(b2.castling & 0b0010, 0); // WQ still present
}

#[test]
fn move_encoding_roundtrip() {
    let mv = Move::new(12, 28, W_QUEEN);
    assert_eq!(mv.from_sq(), 12);
    assert_eq!(mv.to_sq(), 28);
    assert_eq!(mv.promo(), W_QUEEN);
    let v = mv.to_u64();
    let mv2 = Move::from_u64(v);
    assert_eq!(mv, mv2);
}

// ── Further checks ──────────────────────────────────────────────────────────

#[test]
fn move_packing_exact_value() {
    // 12 | (28 << 6) | (5 << 12)
    assert_eq!(Move::new(12, 28, 5).0, 12 + 28 * 64 + 5 * 4096);
    assert!(Move::null().is_null());
    assert!(!Move::new(1, 0, 0).is_null());
    // high bits are dropped when unpacking from a u64
    assert_eq!(Move::from_u64(0x1_0000 + 7).0, 7);
}

#[test]
fn words_roundtrip_for_any_board_word() {
    let w = [0x0123_4567_89AB_CDEF_u64, u64::MAX, 0, 0xF0F0_0F0F_1234_5678];
    let b = Board::from_words(w, [0, 7, 3, 0]);
    assert_eq!(b.to_board_word(), w);
    assert_eq!(b.side, BLACK);
    assert_eq!(b.ep_sq, 7);
    assert_eq!(b.castling, 3);
    assert_eq!(b.squares[0], 0xF);
    assert_eq!(b.squares[1], 0xE);
}

#[test]
fn flags_word_layout() {
    let mut b = Board::startpos();
    assert_eq!(b.to_flags_word(), [1, 255, 15, 0]);
    b.side = BLACK;
    b.ep_sq = 20;
    assert_eq!(b.to_flags_word(), [0, 20, 15, 0]);
}

#[test]
fn startpos_board_word_exact() {
    let b = Board::startpos();
    let bw = b.to_board_word();
    // squares 0..7: R N B Q K B N R = 4 2 3 5 6 3 2 4; squares 8..15: pawns (1)
    assert_eq!(bw[0], 0x1111_1111_4236_5324);
    assert_eq!(bw[1], 0);
    assert_eq!(bw[2], 0);
    assert_eq!(bw[3], 0xA89C_B98A_7777_7777);
}

#[test]
fn piece_predicates() {
    assert!(Board::is_white_piece(1) && Board::is_white_piece(6));
    assert!(!Board::is_white_piece(0) && !Board::is_white_piece(7));
    assert!(Board::is_black_piece(7) && Board::is_black_piece(15));
    assert!(!Board::is_black_piece(6));
    assert!(Board::is_own(3, true) && !Board::is_own(3, false));
    assert!(Board::is_opponent(9, true) && !Board::is_opponent(0, true));
}

#[test]
fn castling_move_brings_rook() {
    let mut b = Board::startpos();
    b.squares[5] = EMPTY;
    b.squares[6] = EMPTY;
    let b2 = b.apply_move(Move::new(4, 6, 0));
    assert_eq!(b2.squares[6], W_KING);
    assert_eq!(b2.squares[5], 4);
    assert_eq!(b2.squares[7], EMPTY);
    assert_eq!(b2.castling, 0b1100);
}

#[test]
fn en_passant_capture_removes_pawn() {
    let mut b = Board::startpos();
    for sq in b.squares.iter_mut() {
        *sq = EMPTY;
    }
    b.squares[36] = W_PAWN; // e5
    b.squares[37] = 7; // black pawn f5
    b.ep_sq = 45;
    let b2 = b.apply_move(Move::new(36, 45, 0));
    assert_eq!(b2.squares[45], W_PAWN);
    assert_eq!(b2.squares[37], EMPTY);
    assert_eq!(b2.ep_sq, 255);
}
