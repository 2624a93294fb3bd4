use ghostmate::agent::{AgentError, AgentState};
use ghostmate::board::{Board, Move, BLACK, EMPTY};
use ghostmate::eval::{decode_weight, encode_weight, NO_ADJ};
use ghostmate::minimax::best_move;

fn board_to_words(b: &Board) -> ([u64; 4], [u64; 4]) {
    (b.to_board_word(), b.to_flags_word())
}

fn words_to_board(bw: [u64; 4], fw: [u64; 4]) -> Board {
    Board::from_words(bw, fw)
}

#[test]
fn receive_move_startpos_returns_valid_move() {
    let b = Board::startpos();
    let (bw, fw) = board_to_words(&b);
    let restored = words_to_board(bw, fw);
    let mv = best_move(&restored, &NO_ADJ);
    assert!(!mv.is_null());
    assert!(mv.from_sq() < 64);
    assert!(mv.to_sq() < 64);
    assert_ne!(mv.from_sq(), mv.to_sq());
}

#[test]
fn wire_roundtrip_preserves_all_fields() {
    let mut b = Board::startpos();
    b.ep_sq = 20;
    b.castling = 0b1010;
    b.side = BLACK;
    let (bw, fw) = board_to_words(&b);
    let b2 = words_to_board(bw, fw);
    assert_eq!(b.squares, b2.squares);
    assert_eq!(b.side, b2.side);
    assert_eq!(b.ep_sq, b2.ep_sq);
    assert_eq!(b.castling, b2.castling);
}

#[test]
fn opening_book_overrides_engine() {
    let b = Board::startpos();
    let book_move = Move::new(12, 28, 0);
    let book_u64 = book_move.to_u64();
    assert_ne!(book_u64, 0);
    let recovered = Move::from_u64(book_u64);
    assert_eq!(recovered, book_move);
    assert!(!best_move(&b, &NO_ADJ).is_null());
}

#[test]
fn weight_encode_decode_storage_cycle() {
    let mut adj = NO_ADJ;
    for (i, offset) in [-50i32, 0, 30, -128, 127, 0, 0, 0, 0, 0, 0, 0].iter().enumerate() {
        let encoded = encode_weight(*offset);
        adj[i] = decode_weight(encoded);
    }
    assert_eq!(adj[0], -50);
    assert_eq!(adj[3], -128);
    assert_eq!(adj[4], 127);
    assert!(!best_move(&Board::startpos(), &adj).is_null());
}

#[test]
fn engine_plays_six_plies_without_panic() {
    let mut b = Board::startpos();
    for _ in 0..6 {
        let mv = best_move(&b, &NO_ADJ);
        if mv.is_null() {
            break;
        }
        b = b.apply_move(mv);
    }
    let pieces: usize = b.squares.iter().filter(|&&p| p != EMPTY).count();
    assert!(pieces > 0 && pieces <= 32);
}

#[test]
fn note_storage_layout_from_computed_move() {
    let b = Board::startpos();
    let mv = best_move(&b, &NO_ADJ);
    assert!((mv.from_sq() as u64) < 64);
    assert!((mv.to_sq() as u64) < 64);
    assert!((mv.promo() as u64) < 13);
    assert!(b.to_board_word()[0] > 0);
}

// ── The agent account ───────────────────────────────────────────────────────

fn neutral_agent(owner: u64) -> AgentState {
    let mut a = AgentState::initialize([1, 2, 3, 4], [owner, 9, 0, 0]);
    for slot in 0..12u64 {
        a.set_weight(owner, slot, 128).unwrap();
    }
    a
}

#[test]
fn agent_book_entry_answers_before_engine() {
    let mut a = neutral_agent(77);
    let b = Board::startpos();
    let bw = b.to_board_word();
    let book = Move::new(12, 28, 0);
    a.set_opening_entry(77, bw, [book.to_u64(), 0, 0, 0]).unwrap();
    let note = a.receive_move(bw, b.to_flags_word(), [5, 6, 0, 0], [42, 0, 0, 0]).unwrap();
    assert_eq!(note.inputs, [12, 28, 0, bw[0]]);
    assert_eq!(note.packed_move, book.to_u64());
    assert_eq!(note.tag, 42);
}

#[test]
fn agent_without_book_entry_uses_engine() {
    let a = neutral_agent(77);
    let mut b = Board::startpos();
    for sq in b.squares.iter_mut() {
        *sq = EMPTY;
    }
    b.squares[4] = 6;
    b.squares[60] = 12;
    b.squares[0] = 4; // white rook a1
    b.squares[56] = 11; // black queen a8
    b.castling = 0;
    let note = a.receive_move(b.to_board_word(), b.to_flags_word(), [0; 4], [0; 4]).unwrap();
    assert_eq!(note.inputs[0], 0);
    assert_eq!(note.inputs[1], 56);
}

#[test]
fn agent_admin_requires_owner() {
    let mut a = AgentState::initialize([0; 4], [10, 11, 0, 0]);
    assert_eq!(a.set_weight(11, 0, 128), Err(AgentError::NotOwner));
    assert_eq!(a.set_opening_entry(3, [0; 4], [0; 4]), Err(AgentError::NotOwner));
    assert!(a.engine_weights.is_empty() && a.opening_book.is_empty());
    a.record_win();
    a.record_win();
    a.record_loss();
    assert_eq!((a.get_win_count(), a.get_loss_count()), (2, 1));
    assert_eq!(a.get_owner(), [10, 11, 0, 0]);
}

#[test]
fn unset_weights_decode_to_minus_128() {
    let a = AgentState::initialize([0; 4], [1, 0, 0, 0]);
    assert_eq!(a.load_weight_adj(), Some([-128; 12]));
}

#[test]
fn undecodable_weight_is_refused() {
    let mut a = neutral_agent(5);
    // 0x8000_0000 as i32 is i32::MIN: subtracting 128 would overflow
    a.set_weight(5, 3, 0x8000_0000).unwrap();
    let b = Board::startpos();
    let res = a.receive_move(b.to_board_word(), b.to_flags_word(), [0; 4], [0; 4]);
    assert_eq!(res, Err(AgentError::WeightOutOfRange));
}

#[test]
fn search_overflow_is_refused() {
    let mut a = neutral_agent(5);
    // A pawn weight of 300 million: eight white pawns alone exceed the i32 range.
    a.set_weight(5, 0, 300_000_128).unwrap();
    let b = Board::startpos();
    let res = a.receive_move(b.to_board_word(), b.to_flags_word(), [0; 4], [0; 4]);
    assert_eq!(res, Err(AgentError::SearchOverflow));
}

#[test]
fn large_weights_that_fit_are_used() {
    let mut a = neutral_agent(5);
    // A king weight of 100 million still keeps every evaluation in range.
    a.set_weight(5, 5, 100_000_128).unwrap();
    let b = Board::startpos();
    let note = a.receive_move(b.to_board_word(), b.to_flags_word(), [0; 4], [0; 4]).unwrap();
    assert!(note.inputs[0] < 64 && note.inputs[1] < 64);
    assert_ne!(note.inputs[0], note.inputs[1]);
}
