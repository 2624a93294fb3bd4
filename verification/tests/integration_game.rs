use ghostmate::board::{Board, Move, BLACK, B_KING, B_PAWN, B_ROOK, EMPTY, WHITE, W_KING, W_PAWN, W_QUEEN, W_ROOK};
use ghostmate::game::{
    authorised_sender, detect_terminal, halfmove_clock_after, is_legal_move, next_halfmove_clock,
    settle_wager, GameAction, GameError, GameState, Payout, HALFMOVE_DRAW, STATUS_ACTIVE,
    STATUS_BLACK_WINS, STATUS_DRAW, STATUS_WHITE_WINS,
};
use ghostmate::moves::generate_legal;

/// (white receives, black receives) from the settlement of a finished game.
fn wager_payout(status: u64, per_player: u64) -> (u64, u64) {
    let white = [1, 1, 0, 0];
    let black = [2, 2, 0, 0];
    let payouts: Vec<Payout> = settle_wager(status, per_player, white, black, [7, 8, 9, 10], 1).unwrap();
    let mut w = 0;
    let mut b = 0;
    for p in payouts {
        if p.recipient == white {
            w += p.amount;
        } else if p.recipient == black {
            b += p.amount;
        }
    }
    (w, b)
}

// ── Move validation ─────────────────────────────────────────────────────────

#[test]
fn accepts_legal_opening_move() {
    let b = Board::startpos();
    let e4 = Move::new(12, 28, 0); // e2-e4
    assert!(is_legal_move(&b, e4), "e2-e4 must be legal from start");
}

#[test]
fn rejects_illegal_move_wrong_piece() {
    let b = Board::startpos();
    let illegal = Move::new(0, 8, 0); // a1 rook to a2 (blocked by the pawn)
    assert!(!is_legal_move(&b, illegal));
}

#[test]
fn rejects_move_from_empty_square() {
    let b = Board::startpos();
    // e4 is empty at the start
    let illegal = Move::new(28, 36, 0);
    assert!(!is_legal_move(&b, illegal));
}

#[test]
fn rejects_move_that_leaves_king_in_check() {
    // Pin: moving the pinned piece would expose the king
    let mut b = Board::startpos();
    for sq in b.squares.iter_mut() {
        *sq = EMPTY;
    }
    b.squares[4] = W_KING; // e1
    b.squares[60] = B_KING; // e8
    b.squares[12] = W_PAWN; // e2 (pinned along the e-file)
    b.squares[28] = B_ROOK; // e4 (pins the pawn)
    b.side = WHITE;
    let _illegal = Move::new(12, 19, 0); // e2-d3 would expose the king
    let legals = generate_legal(&b);
    let moves_off_efile: Vec<_> = legals.iter().filter(|m| m.from_sq() == 12 && m.to_sq() != 20).collect();
    let exposes_king = moves_off_efile.iter().any(|m| m.to_sq() == 19);
    assert!(!exposes_king, "moving pinned pawn off e-file must be illegal");
}

#[test]
fn accepts_promotion_move() {
    let mut b = Board::startpos();
    for sq in b.squares.iter_mut() {
        *sq = EMPTY;
    }
    b.squares[4] = W_KING; // e1
    b.squares[56] = B_KING; // a8, away from e8 so the pawn can push through
    b.squares[52] = W_PAWN; // e7
    b.side = WHITE;
    let promote_queen = Move::new(52, 60, W_QUEEN);
    assert!(is_legal_move(&b, promote_queen));
}

// ── Board state update ──────────────────────────────────────────────────────

#[test]
fn board_updates_after_valid_move() {
    let b = Board::startpos();
    let e4 = Move::new(12, 28, 0);
    let b2 = b.apply_move(e4);
    assert_eq!(b2.squares[12], EMPTY, "e2 must be empty after e2-e4");
    assert_eq!(b2.squares[28], W_PAWN, "e4 must have white pawn");
    assert_eq!(b2.side, BLACK, "it is now black's turn");
    assert_eq!(b2.ep_sq, 20, "en-passant square must be e3");
}

#[test]
fn board_wire_roundtrip_after_move() {
    let b = Board::startpos();
    let mv = Move::new(12, 28, 0);
    let b2 = b.apply_move(mv);
    let bw = b2.to_board_word();
    let fw_base = b2.to_flags_word();
    let halfmove = 0u64;
    let fw = [fw_base[0], fw_base[1], fw_base[2], halfmove];
    let restored = Board::from_words(bw, fw);
    assert_eq!(b2.squares, restored.squares);
    assert_eq!(b2.side, restored.side);
    assert_eq!(b2.ep_sq, restored.ep_sq);
    assert_eq!(b2.castling, restored.castling);
}

// ── Half-move clock ─────────────────────────────────────────────────────────

#[test]
fn halfmove_clock_increments_on_quiet_move() {
    let b = Board::startpos();
    let nf3 = Move::new(6, 21, 0); // Ng1-f3
    let clock = halfmove_clock_after(&b, nf3, 10);
    assert_eq!(clock, 11);
}

#[test]
fn halfmove_clock_resets_on_pawn_move() {
    let b = Board::startpos();
    let e4 = Move::new(12, 28, 0);
    let clock = halfmove_clock_after(&b, e4, 42);
    assert_eq!(clock, 0, "pawn move must reset halfmove clock");
}

#[test]
fn halfmove_clock_resets_on_capture() {
    let mut b = Board::startpos();
    for sq in b.squares.iter_mut() {
        *sq = EMPTY;
    }
    b.squares[4] = W_KING;
    b.squares[60] = B_KING;
    b.squares[0] = W_ROOK;
    b.squares[56] = B_ROOK; // the white rook can take it
    b.side = WHITE;
    let capture = Move::new(0, 56, 0); // Ra1xRa8
    let clock = halfmove_clock_after(&b, capture, 55);
    assert_eq!(clock, 0, "capture must reset halfmove clock");
}

// ── Terminal condition detection ────────────────────────────────────────────

#[test]
fn active_game_returns_status_active() {
    let b = Board::startpos();
    let status = detect_terminal(&b, 0);
    assert_eq!(status, STATUS_ACTIVE);
}

#[test]
fn checkmate_gives_correct_winner() {
    // Fool's mate: 1.f3 e5 2.g4 Qh4#
    let mut b = Board::startpos();
    b = b.apply_move(Move::new(13, 21, 0)); // f2-f3
    b = b.apply_move(Move::new(52, 36, 0)); // e7-e5
    b = b.apply_move(Move::new(14, 30, 0)); // g2-g4
    b = b.apply_move(Move::new(59, 31, 0)); // Qd8-h4#
    assert!(b.in_check(WHITE), "white must be in check");
    let status = detect_terminal(&b, 4);
    assert_eq!(status, STATUS_BLACK_WINS, "black wins by checkmate");
}

#[test]
fn stalemate_is_draw() {
    // Black king a8, white queen b6, white king c6
    let mut b = Board::startpos();
    for sq in b.squares.iter_mut() {
        *sq = EMPTY;
    }
    b.squares[56] = B_KING; // a8
    b.squares[41] = W_QUEEN; // b6
    b.squares[42] = W_KING; // c6
    b.side = BLACK;
    assert!(!b.in_check(BLACK), "black must not be in check");
    let legal = generate_legal(&b);
    assert!(legal.is_empty(), "black must have no legal moves");
    let status = detect_terminal(&b, 10);
    assert_eq!(status, STATUS_DRAW, "stalemate must be a draw");
}

#[test]
fn fifty_move_rule_triggers_draw() {
    let b = Board::startpos();
    let status = detect_terminal(&b, HALFMOVE_DRAW);
    assert_eq!(status, STATUS_DRAW, "50-move rule must produce a draw");
}

#[test]
fn forty_nine_moves_not_yet_draw() {
    let b = Board::startpos();
    let status = detect_terminal(&b, HALFMOVE_DRAW - 1);
    assert_eq!(status, STATUS_ACTIVE, "game still active at 99 half-moves");
}

// ── Wager payout ────────────────────────────────────────────────────────────

#[test]
fn winner_receives_double_wager() {
    let (w_gets, b_gets) = wager_payout(STATUS_WHITE_WINS, 500);
    assert_eq!(w_gets, 1000, "white should receive both wagers");
    assert_eq!(b_gets, 0);
}

#[test]
fn loser_receives_nothing() {
    let (w_gets, b_gets) = wager_payout(STATUS_BLACK_WINS, 500);
    assert_eq!(w_gets, 0);
    assert_eq!(b_gets, 1000, "black should receive both wagers");
}

#[test]
fn draw_returns_each_players_wager() {
    let (w_gets, b_gets) = wager_payout(STATUS_DRAW, 300);
    assert_eq!(w_gets, 300, "white gets their wager back");
    assert_eq!(b_gets, 300, "black gets their wager back");
}

#[test]
fn wager_total_is_conserved() {
    let per_player = 750u64;
    let total_in = per_player * 2;
    for status in [STATUS_WHITE_WINS, STATUS_BLACK_WINS, STATUS_DRAW] {
        let (w, b) = wager_payout(status, per_player);
        assert_eq!(w + b, total_in, "wager must be fully distributed (status={status})");
    }
}

// ── Sender / turn authorisation ─────────────────────────────────────────────

#[test]
fn correct_sender_is_authorised_white_turn() {
    let b = Board::startpos(); // white to move
    let white = [0xAABB_u64, 0xCCDD_u64];
    let black = [0x1122_u64, 0x3344_u64];
    assert!(authorised_sender(&b, white, white, black));
    assert!(!authorised_sender(&b, black, white, black));
}

#[test]
fn correct_sender_is_authorised_black_turn() {
    let mut b = Board::startpos();
    b.side = BLACK;
    let white = [0xAABB_u64, 0xCCDD_u64];
    let black = [0x1122_u64, 0x3344_u64];
    assert!(authorised_sender(&b, black, white, black));
    assert!(!authorised_sender(&b, white, white, black));
}

#[test]
fn wrong_prefix_is_rejected() {
    let b = Board::startpos();
    let white = [0xAABB_u64, 0xCCDD_u64];
    let black = [0x1122_u64, 0x3344_u64];
    // Same suffix, different prefix
    let impostor = [0xDEAD_u64, 0xCCDD_u64];
    assert!(!authorised_sender(&b, impostor, white, black));
}

// ── Full move sequence ──────────────────────────────────────────────────────

#[test]
fn full_fools_mate_sequence_ends_in_checkmate() {
    let mut b = Board::startpos();
    let mut halfmove_clock = 0u64;

    let moves = [
        Move::new(13, 21, 0), // f2-f3
        Move::new(52, 36, 0), // e7-e5
        Move::new(14, 30, 0), // g2-g4
        Move::new(59, 31, 0), // Qd8-h4#
    ];

    for mv in moves {
        assert_eq!(detect_terminal(&b, halfmove_clock), STATUS_ACTIVE, "game must still be active before the final move");
        assert!(is_legal_move(&b, mv), "move {:?} must be legal", mv);
        halfmove_clock = halfmove_clock_after(&b, mv, halfmove_clock);
        b = b.apply_move(mv);
    }

    assert_eq!(detect_terminal(&b, halfmove_clock), STATUS_BLACK_WINS);
}

#[test]
fn fifty_move_counter_accumulates_over_quiet_moves() {
    let mut b = Board::startpos();
    let mut clock = 0u64;

    // Knights back and forth: quiet moves
    let knight_moves = [
        Move::new(6, 21, 0),  // Ng1-f3
        Move::new(62, 45, 0), // Ng8-f6
        Move::new(21, 6, 0),  // Nf3-g1
        Move::new(45, 62, 0), // Nf6-g8
    ];

    for _ in 0..10 {
        for &mv in &knight_moves {
            clock = halfmove_clock_after(&b, mv, clock);
            b = b.apply_move(mv);
        }
    }

    // 40 quiet half-moves: not yet a draw
    assert!(clock < HALFMOVE_DRAW, "expected clock < 100 after 40 moves, got {clock}");

    while clock < HALFMOVE_DRAW {
        for &mv in &knight_moves {
            clock = halfmove_clock_after(&b, mv, clock);
            b = b.apply_move(mv);
            if clock >= HALFMOVE_DRAW {
                break;
            }
        }
    }
    let status = detect_terminal(&b, clock);
    assert_eq!(status, STATUS_DRAW, "50-move rule must trigger at clock={clock}");
}

#[test]
fn turn_note_storage_layout_is_correct() {
    // The turn note layout: [board(4), flags(4), game_id(4), reserved(4)]
    let b = Board::startpos();
    let bw = b.to_board_word();
    let fw = b.to_flags_word();

    let layout: Vec<u64> = [
        bw[0], bw[1], bw[2], bw[3],
        fw[0], fw[1], fw[2], 0u64, // fw[3] = halfmove_clock = 0 initially
        0xABCD_u64, 0xEF01_u64, 0, 0, // game id
        0, 0, 0, 0, // reserved
    ]
    .to_vec();

    assert_eq!(layout.len(), 16, "turn note must have 16 felts in storage");
    assert_eq!(layout[0], bw[0]);
    assert_eq!(layout[4], fw[0]); // 1 = white to move at startpos
}

#[test]
fn agent_move_note_storage_layout_is_correct() {
    // The agent-move-note storage: [from_sq, to_sq, promo, 0]
    let from_sq: u64 = 12; // e2
    let to_sq: u64 = 28; // e4
    let promo: u64 = 0;
    let storage = [from_sq, to_sq, promo, 0u64];
    assert!(storage[0] < 64);
    assert!(storage[1] < 64);
    assert_eq!(storage[3], 0, "reserved field must be zero");
}

// ── The game state machine ──────────────────────────────────────────────────

const WHITE_AGENT: [u64; 4] = [0xAABB, 0xCCDD, 0, 0];
const BLACK_AGENT: [u64; 4] = [0x1122, 0x3344, 0, 0];
const GAME_ID: [u64; 2] = [0xABCD, 0xEF01];

fn new_game(per_player: u64) -> GameState {
    GameState::initialize(WHITE_AGENT, BLACK_AGENT, [7, 8, 9, 10], [per_player, 0, 0, 0])
}

#[test]
fn game_initialises_at_startpos() {
    let g = new_game(500);
    let b = Board::startpos();
    assert_eq!(g.get_board(), b.to_board_word());
    assert_eq!(g.get_flags(), [1, 255, 15, 0]);
    assert_eq!(g.get_game_status(), STATUS_ACTIVE);
    assert_eq!(g.get_move_count(), 0);
    assert_eq!(g.get_white_agent(), WHITE_AGENT);
    assert_eq!(g.get_black_agent(), BLACK_AGENT);
    assert!(g.accepts_wager_asset([7, 8, 0, 0]));
    assert!(!g.accepts_wager_asset([7, 9, 9, 10]));
}

#[test]
fn game_refuses_wrong_sender_and_illegal_move() {
    let mut g = new_game(500);
    let before = g;
    assert_eq!(g.receive_move([12, 28, 0, 0], BLACK_AGENT, GAME_ID), Err(GameError::NotYourTurn));
    assert_eq!(g.receive_move([12, 36, 0, 0], WHITE_AGENT, GAME_ID), Err(GameError::IllegalMove));
    assert_eq!(g, before);
}

#[test]
fn game_move_updates_state_and_emits_turn_note() {
    let mut g = new_game(500);
    let action = g.receive_move([12, 28, 0, 0], WHITE_AGENT, GAME_ID).unwrap();
    let next = Board::startpos().apply_move(Move::new(12, 28, 0));
    assert_eq!(g.get_board(), next.to_board_word());
    assert_eq!(g.get_flags(), [0, 20, 15, 0]);
    assert_eq!(g.get_move_count(), 1);
    let bw = next.to_board_word();
    assert_eq!(
        action,
        GameAction::Turn(ghostmate::game::TurnNote {
            recipient: BLACK_AGENT,
            script_root: ghostmate::game::TURN_NOTE_ROOT,
            inputs: [bw[0], bw[1], bw[2], bw[3], 0, 20, 15, 0, 0xABCD, 0xEF01, 0, 0, 0, 0, 0, 0],
            note_type: ghostmate::game::NOTE_TYPE_PRIVATE,
            tag: 0,
            serial_count: 1,
        })
    );
    // A quiet knight move by black raises the clock.
    g.receive_move([62, 45, 0, 0], BLACK_AGENT, GAME_ID).unwrap();
    assert_eq!(g.get_flags()[3], 1);
}

#[test]
fn game_fools_mate_settles_wager() {
    let mut g = new_game(500);
    g.receive_move([13, 21, 0, 0], WHITE_AGENT, GAME_ID).unwrap();
    g.receive_move([52, 36, 0, 0], BLACK_AGENT, GAME_ID).unwrap();
    g.receive_move([14, 30, 0, 0], WHITE_AGENT, GAME_ID).unwrap();
    let action = g.receive_move([59, 31, 0, 0], BLACK_AGENT, GAME_ID).unwrap();
    assert_eq!(g.get_game_status(), STATUS_BLACK_WINS);
    assert_eq!(
        action,
        GameAction::Settle(vec![Payout {
            recipient: BLACK_AGENT,
            amount: 1000,
            serial_disc: 0,
            script_root: ghostmate::game::P2ID_NOTE_ROOT,
            inputs: [0x3344, 0x1122],
            asset_key: [7, 8, 9, 10],
            note_type: ghostmate::game::NOTE_TYPE_PRIVATE,
            tag: 0,
            serial_count: 4,
        }])
    );
    assert_eq!(g.receive_move([12, 28, 0, 0], WHITE_AGENT, GAME_ID), Err(GameError::GameNotActive));
}

#[test]
fn game_refuses_win_whose_payout_overflows() {
    let mut g = new_game(u64::MAX / 2 + 1);
    g.receive_move([13, 21, 0, 0], WHITE_AGENT, GAME_ID).unwrap();
    g.receive_move([52, 36, 0, 0], BLACK_AGENT, GAME_ID).unwrap();
    g.receive_move([14, 30, 0, 0], WHITE_AGENT, GAME_ID).unwrap();
    let before = g;
    assert_eq!(g.receive_move([59, 31, 0, 0], BLACK_AGENT, GAME_ID), Err(GameError::WagerOverflow));
    assert_eq!(g, before);
}

#[test]
fn settle_wager_refuses_overflow_and_next_clock_counts_from_zero() {
    assert!(settle_wager(STATUS_WHITE_WINS, u64::MAX, [0; 4], [0; 4], [0; 4], 0).is_none());
    assert!(settle_wager(STATUS_DRAW, u64::MAX, [0; 4], [0; 4], [0; 4], 0).is_some());
    let b = Board::startpos();
    assert_eq!(next_halfmove_clock(&b, Move::new(6, 21, 0)), 1);
    assert_eq!(next_halfmove_clock(&b, Move::new(12, 28, 0)), 0);
    let _ = B_PAWN;
}

#[test]
fn game_refuses_square_bytes_off_the_board() {
    // 70 = 64 + 6: its sixth bit lands in the to-field, which is odd already, so the word
    // packs to the legal g1-f3.
    let mut g = new_game(500);
    let before = g;
    assert_eq!(Move::new(70, 21, 0), Move::new(6, 21, 0));
    assert_eq!(g.receive_move([70, 21, 0, 0], WHITE_AGENT, GAME_ID), Err(GameError::SquareOffBoard));
    assert_eq!(g, before);
    assert!(g.receive_move([12, 28, 0, 0], WHITE_AGENT, GAME_ID).is_ok());
}

#[test]
fn draw_pays_each_wager_back_in_two_private_notes() {
    let payouts = settle_wager(STATUS_DRAW, 300, WHITE_AGENT, BLACK_AGENT, [1, 2, 3, 4], 9).unwrap();
    assert_eq!(payouts.len(), 2);
    assert_eq!((payouts[0].recipient, payouts[0].amount, payouts[0].serial_disc), (WHITE_AGENT, 300, 0));
    assert_eq!((payouts[1].recipient, payouts[1].amount, payouts[1].serial_disc), (BLACK_AGENT, 300, 1));
    assert_eq!(payouts[0].inputs, [0xCCDD, 0xAABB]);
    assert_eq!(payouts[1].inputs, [0x3344, 0x1122]);
    for p in &payouts {
        assert_eq!(p.note_type, ghostmate::game::NOTE_TYPE_PRIVATE);
        assert_eq!(p.asset_key, [1, 2, 3, 4]);
        assert_eq!(p.serial_count, 9);
    }
}

#[test]
fn turn_note_layout_for_the_agent_to_move() {
    let bw = [1u64, 2, 3, 4];
    let fw = [0u64, 255, 15, 7];
    let t = ghostmate::game::emit_turn_note(BLACK, bw, fw, WHITE_AGENT, BLACK_AGENT, GAME_ID, 12);
    assert_eq!(t.recipient, BLACK_AGENT);
    assert_eq!(t.inputs, [1, 2, 3, 4, 0, 255, 15, 7, 0xABCD, 0xEF01, 0, 0, 0, 0, 0, 0]);
    assert_eq!(t.note_type, ghostmate::game::NOTE_TYPE_PRIVATE);
    assert_eq!(t.script_root, ghostmate::game::TURN_NOTE_ROOT);
    assert_eq!((t.tag, t.serial_count), (0, 12));
}
