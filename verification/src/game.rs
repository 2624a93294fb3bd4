//! Game rules of a wagered match: move submission, turn order, the half-move clock,
//! end-of-game detection and wager settlement.
//!
//! The game's persistent state is a `GameState` of plain words; a submitted move either
//! fails (leaving the state as it was) or updates the state and yields the notes to
//! emit: the next turn, or the wager payouts once the game is over.
use vstd::prelude::*;

use crate::board::{
    apply_move_spec, start_position, decode_board, encode_flags, encode_squares, pack_move, Board, BoardView, Move,
    B_PAWN, EMPTY, WHITE, W_PAWN,
};
use crate::minimax::lemma_legal_applicable;
use crate::moves::{generate_legal, in_check_spec, legal_moves};

verus! {

// ── Game status sentinel values ─────────────────────────────────────────────

pub const STATUS_ACTIVE: u64 = 0;
pub const STATUS_WHITE_WINS: u64 = 1;
pub const STATUS_BLACK_WINS: u64 = 2;
pub const STATUS_DRAW: u64 = 3;

/// 50-move rule: 100 half-moves without a pawn move or a capture is a draw.
pub const HALFMOVE_DRAW: u64 = 100;

// ── Note script roots ───────────────────────────────────────────────────────

/// Script root of the turn note that each agent consumes.
pub const TURN_NOTE_ROOT: [u64; 4] = [0xAAAA_0000_0000_0001u64, 0xAAAA_0000_0000_0002u64, 0xAAAA_0000_0000_0003u64, 0xAAAA_0000_0000_0004u64];

/// Script root of the pay-to-id note that carries a payout.
pub const P2ID_NOTE_ROOT: [u64; 4] = [13_362_761_878_458_161_062u64, 15_090_726_097_241_769_395u64, 444_910_447_169_617_901u64, 3_558_201_871_398_422_326u64];

/// The modulus of the field whose elements storage words hold (2^64 - 2^32 + 1).
pub const FIELD_MODULUS: u64 = 0xFFFF_FFFF_0000_0001;

/// A `u64` as a field element: reduced modulo the field modulus.
pub open spec fn felt(x: u64) -> u64 {
    (x % FIELD_MODULUS) as u64
}

/// A `u64` as a field element, the way a storage word is built from it.
pub fn to_felt(x: u64) -> (f: u64)
    ensures
        f == felt(x),
        f < FIELD_MODULUS,
{
    if x >= FIELD_MODULUS {
        x - FIELD_MODULUS
    } else {
        x
    }
}

/// Each element of a word as a field element.
pub open spec fn felt_word(w: Seq<u64>) -> Seq<u64> {
    seq![felt(w[0]), felt(w[1]), felt(w[2]), felt(w[3])]
}

fn to_felt_word(w: [u64; 4]) -> (f: [u64; 4])
    ensures
        f@ == felt_word(w@),
{
    let f = [to_felt(w[0]), to_felt(w[1]), to_felt(w[2]), to_felt(w[3])];
    assert(f@ =~= felt_word(w@));
    f
}

// ── Move validation and terminal detection ──────────────────────────────────

/// The move is one of the legal moves of the side to move.
pub fn is_legal_move(board: &Board, mv: Move) -> (legal: bool)
    ensures
        legal == legal_moves(board@).contains(mv),
{
    let moves = generate_legal(board);
    let mut i = 0usize;
    while i < moves.len()
        invariant
            i <= moves@.len(),
            moves@ == legal_moves(board@),
            forall|j: int| 0 <= j < i ==> moves@[j] != mv,
        decreases moves.len() - i,
    {
        if moves[i] == mv {
            assert(moves@[i as int] == mv);
            return true;
        }
        i = i + 1;
    }
    false
}

/// The status of a position once a move has been made (`b.side` is to move next):
/// without legal moves, checkmate is a win for the side that just moved and stalemate a
/// draw; otherwise a clock of 100 half-moves is a draw, else the game goes on.
pub open spec fn terminal_status(b: BoardView, halfmove_clock: u64) -> u64 {
    if legal_moves(b).len() == 0 {
        if in_check_spec(b, b.side) {
            if b.side == WHITE {
                STATUS_BLACK_WINS
            } else {
                STATUS_WHITE_WINS
            }
        } else {
            STATUS_DRAW
        }
    } else if halfmove_clock >= HALFMOVE_DRAW {
        STATUS_DRAW
    } else {
        STATUS_ACTIVE
    }
}

/// Examine the position after a move has been applied and return its status.
pub fn detect_terminal(next_board: &Board, halfmove_clock: u64) -> (status: u64)
    ensures
        status == terminal_status(next_board@, halfmove_clock),
{
    let legal = generate_legal(next_board);
    if legal.len() == 0 {
        if next_board.in_check(next_board.side) {
            // The side that just moved wins
            if next_board.side == WHITE {
                STATUS_BLACK_WINS
            } else {
                STATUS_WHITE_WINS
            }
        } else {
            STATUS_DRAW  // stalemate
        }
    } else if halfmove_clock >= HALFMOVE_DRAW {
        STATUS_DRAW  // 50-move rule
    } else {
        STATUS_ACTIVE
    }
}

/// The move is a pawn move or a capture, which resets the half-move clock.
pub open spec fn resets_clock(b: BoardView, mv: Move) -> bool {
    let moved = b.squares[mv.from_sq() as int];
    let target = b.squares[mv.to_sq() as int];
    moved == W_PAWN || moved == B_PAWN || target != EMPTY
}

/// The half-move clock after `mv`: reset to 0 on a pawn move or capture, otherwise one more.
pub open spec fn clock_after(b: BoardView, mv: Move, current: u64) -> int {
    if resets_clock(b, mv) {
        0
    } else {
        current + 1
    }
}

/// The updated half-move clock after applying `mv` to `board`.
pub fn halfmove_clock_after(board: &Board, mv: Move, current: u64) -> (clock: u64)
    requires
        current < u64::MAX,
    ensures
        clock == clock_after(board@, mv, current),
{
    proof {
        crate::board::lemma_move_ranges(mv);
    }
    let moved = board.piece_at(mv.from_sq());
    let target = board.piece_at(mv.to_sq());
    let is_pawn = moved == W_PAWN || moved == B_PAWN;
    let is_capture = target != EMPTY;
    if is_pawn || is_capture {
        0
    } else {
        current + 1
    }
}

/// The clock a move leads to when counted from a cleared clock: 0 on a pawn move or
/// capture, else 1.
pub fn next_halfmove_clock(board: &Board, mv: Move) -> (clock: u64)
    ensures
        clock == clock_after(board@, mv, 0),
{
    halfmove_clock_after(board, mv, 0)
}

/// The sender is the agent whose turn it is (prefix and suffix both match).
pub fn authorised_sender(board: &Board, sender: [u64; 2], white: [u64; 2], black: [u64; 2]) -> (ok: bool)
    ensures
        ok == (if board.side == WHITE {
            sender@ == white@
        } else {
            sender@ == black@
        }),
{
    let expected = if board.side == WHITE { white } else { black };
    let ok = sender[0] == expected[0] && sender[1] == expected[1];
    assert(ok ==> sender@ =~= expected@);
    ok
}

// ── Wager settlement ────────────────────────────────────────────────────────

/// The type of a private note: only its recipient can consume it.
pub const NOTE_TYPE_PRIVATE: u64 = 2;

/// One pay-to-id payout note: `amount` of the wager asset (key `asset_key`) for
/// `recipient` = [prefix, suffix, 0, 0]. The note runs the pay-to-id script with the
/// recipient's [suffix, prefix] as inputs; it is private with tag 0, and its serial number
/// is [block number, serial_count, serial_disc, 0], `serial_disc` telling apart the notes of
/// one transaction.
#[derive(Clone, Copy, Debug, PartialEq, Eq)]
pub struct Payout {
    pub recipient: [u64; 4],
    pub amount: u64,
    pub serial_disc: u64,
    pub script_root: [u64; 4],
    pub inputs: [u64; 2],
    pub asset_key: [u64; 4],
    pub note_type: u64,
    pub tag: u64,
    pub serial_count: u64,
}

/// The payouts at the end of a game: the winner receives both wagers; on a draw each
/// player gets their own wager back, white first.
pub open spec fn payouts_for(status: u64, per_player: u64, white: Seq<u64>, black: Seq<u64>) -> Seq<(Seq<u64>, int, int)> {
    if status == STATUS_WHITE_WINS {
        seq![(white, 2 * per_player, 0)]
    } else if status == STATUS_BLACK_WINS {
        seq![(black, 2 * per_player, 0)]
    } else {
        seq![(white, per_player as int, 0), (black, per_player as int, 1)]
    }
}

/// A payout as (recipient, amount, serial discriminator).
pub open spec fn payout_view(p: Payout) -> (Seq<u64>, int, int) {
    (p.recipient@, p.amount as int, p.serial_disc as int)
}

/// The note shape of a payout: the pay-to-id script, the recipient's [suffix, prefix] as
/// inputs, the wager asset, private, tag 0, and the move count in the serial number.
pub open spec fn is_p2id_note(p: Payout, asset_key: [u64; 4], move_count: u64) -> bool {
    &&& p.script_root == P2ID_NOTE_ROOT
    &&& p.inputs@ == seq![p.recipient[1], p.recipient[0]]
    &&& p.asset_key == asset_key
    &&& p.note_type == NOTE_TYPE_PRIVATE
    &&& p.tag == 0
    &&& p.serial_count == move_count
}

/// Doubling the wager of a win fits in a `u64`.
pub open spec fn settlement_fits(status: u64, per_player: u64) -> bool {
    (status == STATUS_WHITE_WINS || status == STATUS_BLACK_WINS) ==> 2 * per_player <= u64::MAX
}

/// The pay-to-id note moving `amount` of the wager asset to `recipient`.
pub fn p2id_payout(recipient: [u64; 4], asset_key: [u64; 4], amount: u64, serial_disc: u64, move_count: u64) -> (p: Payout)
    ensures
        p.recipient == recipient,
        p.amount == amount,
        p.serial_disc == serial_disc,
        is_p2id_note(p, asset_key, move_count),
{
    let p = Payout {
        recipient,
        amount,
        serial_disc,
        script_root: P2ID_NOTE_ROOT,
        inputs: [recipient[1], recipient[0]],
        asset_key,
        note_type: NOTE_TYPE_PRIVATE,
        tag: 0,
        serial_count: move_count,
    };
    assert(p.inputs@ =~= seq![recipient[1], recipient[0]]);
    p
}

/// Release the wager once the game is over; `None` when doubling the wager overflows.
/// `move_count` is the game's move count, which goes into the notes' serial numbers.
pub fn settle_wager(status: u64, per_player: u64, white: [u64; 4], black: [u64; 4], asset_key: [u64; 4], move_count: u64) -> (payouts: Option<Vec<Payout>>)
    ensures
        payouts is Some <==> settlement_fits(status, per_player),
        payouts matches Some(p) ==> p@.map_values(|q: Payout| payout_view(q)) == payouts_for(
            status,
            per_player,
            white@,
            black@,
        ),
        payouts matches Some(p) ==> forall|i: int| 0 <= i < p.len() ==> is_p2id_note(#[trigger] p@[i], asset_key, move_count),
{
    let mut out: Vec<Payout> = Vec::new();
    if status == STATUS_WHITE_WINS {
        if per_player > u64::MAX / 2 {
            return None;
        }
        let total = per_player * 2;
        out.push(p2id_payout(white, asset_key, total, 0, move_count));
    } else if status == STATUS_BLACK_WINS {
        if per_player > u64::MAX / 2 {
            return None;
        }
        let total = per_player * 2;
        out.push(p2id_payout(black, asset_key, total, 0, move_count));
    } else {
        // Draw: each player's wager goes back
        out.push(p2id_payout(white, asset_key, per_player, 0, move_count));
        out.push(p2id_payout(black, asset_key, per_player, 1, move_count));
    }
    assert(out@.map_values(|q: Payout| payout_view(q)) =~= payouts_for(status, per_player, white@, black@));
    Some(out)
}

// ── Game state machine ──────────────────────────────────────────────────────

/// Why a submitted move is refused.
#[derive(Clone, Copy, Debug, PartialEq, Eq)]
pub enum GameError {
    /// The game is already over.
    GameNotActive,
    /// The sender is not the agent whose turn it is.
    NotYourTurn,
    /// The move is not legal in the current position.
    IllegalMove,
    /// A square byte of the move word is off the board, though the packed move is legal.
    SquareOffBoard,
    /// Doubling the wager for the winner overflows.
    WagerOverflow,
}

/// The note telling the next agent that it is to move: for `recipient`, running the turn
/// note script, private with tag 0, its serial number [block number, serial_count, 0, 0],
/// and as inputs the board word, the flags word (with the half-move clock), the game
/// account's [prefix, suffix, 0, 0] to answer to, and four zeros.
#[derive(Clone, Copy, Debug, PartialEq, Eq)]
pub struct TurnNote {
    pub recipient: [u64; 4],
    pub script_root: [u64; 4],
    pub inputs: [u64; 16],
    pub note_type: u64,
    pub tag: u64,
    pub serial_count: u64,
}

/// The sixteen inputs of a turn note.
pub open spec fn turn_inputs(board: Seq<u64>, flags: Seq<u64>, game_id: Seq<u64>) -> Seq<u64> {
    board + flags + seq![game_id[0], game_id[1], 0u64, 0u64] + seq![0u64, 0u64, 0u64, 0u64]
}

/// The turn note for the position stored in `g`, sent by the game account `game_id`.
pub open spec fn is_turn_note(t: TurnNote, g: GameState, game_id: [u64; 2]) -> bool {
    &&& t.recipient == (if position_of(g).side == WHITE {
        g.white_agent
    } else {
        g.black_agent
    })
    &&& t.script_root == TURN_NOTE_ROOT
    &&& t.inputs@ == turn_inputs(g.board@, g.flags@, game_id@)
    &&& t.note_type == NOTE_TYPE_PRIVATE
    &&& t.tag == 0
    &&& t.serial_count == g.move_count
}

/// The turn note for the agent to move in the stored position `board`/`flags`.
pub fn emit_turn_note(
    side: bool,
    board: [u64; 4],
    flags: [u64; 4],
    white: [u64; 4],
    black: [u64; 4],
    game_id: [u64; 2],
    move_count: u64,
) -> (t: TurnNote)
    ensures
        t.recipient == (if side == WHITE {
            white
        } else {
            black
        }),
        t.script_root == TURN_NOTE_ROOT,
        t.inputs@ == turn_inputs(board@, flags@, game_id@),
        t.note_type == NOTE_TYPE_PRIVATE,
        t.tag == 0,
        t.serial_count == move_count,
{
    let recipient = if side == WHITE { white } else { black };
    let inputs = [
        board[0], board[1], board[2], board[3],
        flags[0], flags[1], flags[2], flags[3],
        game_id[0], game_id[1], 0u64, 0u64,
        0u64, 0u64, 0u64, 0u64,
    ];
    assert(inputs@ =~= turn_inputs(board@, flags@, game_id@));
    TurnNote { recipient, script_root: TURN_NOTE_ROOT, inputs, note_type: NOTE_TYPE_PRIVATE, tag: 0, serial_count: move_count }
}

/// What an accepted move leads to.
#[derive(Clone, Debug, PartialEq, Eq)]
pub enum GameAction {
    /// The game goes on: emit a turn note to the next agent.
    Turn(TurnNote),
    /// The game is over: emit these payouts.
    Settle(Vec<Payout>),
}

/// The persistent state of a game: board and flags words
/// ([side, ep_sq, castling, halfmove_clock]), the agents ([prefix, suffix, 0, 0]), the wager
/// asset key and amount per player, the status and the number of half-moves played.
#[derive(Clone, Copy, Debug, PartialEq, Eq)]
pub struct GameState {
    pub board: [u64; 4],
    pub flags: [u64; 4],
    pub white_agent: [u64; 4],
    pub black_agent: [u64; 4],
    pub wager_asset_key: [u64; 4],
    pub wager_per_player: u64,
    pub game_status: u64,
    pub move_count: u64,
}

/// The position a game state's words describe.
pub open spec fn position_of(g: GameState) -> BoardView {
    decode_board(g.board@, g.flags@)
}

/// The agent whose turn it is.
pub open spec fn agent_to_move(g: GameState) -> Seq<u64> {
    if position_of(g).side == WHITE {
        g.white_agent@
    } else {
        g.black_agent@
    }
}

/// The move encoded by a move word [from_sq, to_sq, promo, 0] (each element truncated to
/// a byte).
pub open spec fn word_move(mv: Seq<u64>) -> Move {
    Move(pack_move(mv[0] as u8, mv[1] as u8, mv[2] as u8))
}

/// Why a move word from `sender` would be refused, checked in this order.
pub open spec fn refusal(g: GameState, mv: Seq<u64>, sender: Seq<u64>) -> Option<GameError> {
    let b = position_of(g);
    let player_move = word_move(mv);
    let next = apply_move_spec(b, player_move);
    let clock = clock_after(b, player_move, g.flags[3]);
    if g.game_status != STATUS_ACTIVE {
        Some(GameError::GameNotActive)
    } else if sender[0] != agent_to_move(g)[0] || sender[1] != agent_to_move(g)[1] {
        Some(GameError::NotYourTurn)
    } else if !legal_moves(b).contains(player_move) {
        Some(GameError::IllegalMove)
    } else if mv[0] as u8 >= 64 || mv[1] as u8 >= 64 {
        Some(GameError::SquareOffBoard)
    } else if !settlement_fits(terminal_status(next, clock as u64), g.wager_per_player) {
        Some(GameError::WagerOverflow)
    } else {
        None
    }
}

/// The flags word stored after a move: the flags of the new position with the clock in
/// the last element.
pub open spec fn flags_after(next: BoardView, clock: int) -> Seq<u64> {
    encode_flags(next).update(3, clock as u64)
}

/// The state after an accepted move: new board and flags words (as field elements), one
/// more half-move, and the status of the new position.
pub open spec fn state_after(g: GameState, mv: Seq<u64>) -> GameState {
    let b = position_of(g);
    let player_move = word_move(mv);
    let next = apply_move_spec(b, player_move);
    let clock = clock_after(b, player_move, g.flags[3]);
    let board = felt_word(encode_squares(next.squares));
    let flags = felt_word(flags_after(next, clock));
    GameState {
        board: [board[0], board[1], board[2], board[3]],
        flags: [flags[0], flags[1], flags[2], flags[3]],
        move_count: felt((g.move_count + 1) as u64),
        game_status: terminal_status(next, clock as u64),
        ..g
    }
}

/// The notes an accepted move leads to, given the state after it: while the game goes on
/// a turn note to the agent to move with the new words; once it is over the payouts.
pub open spec fn expected_action(g: GameState, game_id: [u64; 2], action: GameAction) -> bool {
    if g.game_status == STATUS_ACTIVE {
        action matches GameAction::Turn(t) && is_turn_note(t, g, game_id)
    } else {
        match action {
            GameAction::Settle(p) => p@.map_values(|q: Payout| payout_view(q)) == payouts_for(
                g.game_status,
                g.wager_per_player,
                g.white_agent@,
                g.black_agent@,
            ) && forall|i: int| 0 <= i < p.len() ==> is_p2id_note(#[trigger] p@[i], g.wager_asset_key, g.move_count),
            GameAction::Turn(_) => false,
        }
    }
}

impl GameState {
    /// The stored values are field elements and the half-move clock can still grow.
    pub open spec fn well_formed(self) -> bool {
        &&& self.flags[3] < FIELD_MODULUS
        &&& self.move_count < FIELD_MODULUS
    }

    /// The game set up at the starting position: white and black agents, the wager asset
    /// key, and `config` = [wager_per_player, 0, 0, 0].
    pub fn initialize(white: [u64; 4], black: [u64; 4], wager_key: [u64; 4], config: [u64; 4]) -> (g: Self)
        ensures
            g.board@ == felt_word(encode_squares(start_position().squares)),
            g.flags@ == felt_word(encode_flags(start_position())),
            g.white_agent == white,
            g.black_agent == black,
            g.wager_asset_key == wager_key,
            g.wager_per_player == config[0],
            g.game_status == STATUS_ACTIVE,
            g.move_count == 0,
            g.well_formed(),
    {
        let startpos = Board::startpos();
        let bw = startpos.to_board_word();
        let fw = startpos.to_flags_word();  // [side=1, ep=255, castling=15, 0]
        GameState {
            board: to_felt_word(bw),
            flags: to_felt_word(fw),
            white_agent: white,
            black_agent: black,
            wager_asset_key: wager_key,
            wager_per_player: config[0],
            game_status: STATUS_ACTIVE,
            move_count: 0,
        }
    }

    /// A wager deposit is accepted when its asset key matches the configured one in its
    /// first two elements.
    pub fn accepts_wager_asset(&self, asset_key: [u64; 4]) -> (ok: bool)
        ensures
            ok == (asset_key[0] == self.wager_asset_key[0] && asset_key[1] == self.wager_asset_key[1]),
    {
        asset_key[0] == self.wager_asset_key[0] && asset_key[1] == self.wager_asset_key[1]
    }

    /// Receive an agent's move `mv` = [from_sq, to_sq, promo, 0] from `sender` =
    /// [prefix, suffix, 0, 0], in the game account `game_id` = [prefix, suffix]. The game
    /// must be active, the sender must be the agent to move, the move legal and its square
    /// bytes on the board; then the position, clock, move count and status are updated
    /// and the game either goes on with a turn note to the next agent or ends with the
    /// wager payouts. A refused move leaves the state unchanged.
    pub fn receive_move(&mut self, mv: [u64; 4], sender: [u64; 4], game_id: [u64; 2]) -> (res: Result<GameAction, GameError>)
        requires
            old(self).well_formed(),
        ensures
            final(self).well_formed(),
            refusal(*old(self), mv@, sender@) matches Some(e) ==> res == Err::<GameAction, GameError>(e)
                && *final(self) == *old(self),
            refusal(*old(self), mv@, sender@) is None ==> *final(self) == state_after(*old(self), mv@),
            refusal(*old(self), mv@, sender@) is None ==> (res matches Ok(action) && expected_action(
                *final(self),
                game_id,
                action,
            )),
    {
        let ghost g0 = *self;
        // 1. The game must be active
        if self.game_status != STATUS_ACTIVE {
            return Err(GameError::GameNotActive);
        }
        // 2. Reconstruct the board

        let halfmove_clock = self.flags[3];
        let board = Board::from_words(self.board, self.flags);
        // 3. It must be this sender's turn

        let expected = if board.side == WHITE { self.white_agent } else { self.black_agent };
        if sender[0] != expected[0] || sender[1] != expected[1] {
            return Err(GameError::NotYourTurn);
        }
        // 4. The submitted move must be legal

        let from_sq = #[verifier::truncate] (mv[0] as u8);
        let to_sq = #[verifier::truncate] (mv[1] as u8);
        let promo = #[verifier::truncate] (mv[2] as u8);
        let player_move = Move::new(from_sq, to_sq, promo);
        if !is_legal_move(&board, player_move) {
            return Err(GameError::IllegalMove);
        }
        if from_sq >= 64 || to_sq >= 64 {
            return Err(GameError::SquareOffBoard);
        }
        // 5. Update the half-move clock

        let new_halfmove = halfmove_clock_after(&board, player_move, halfmove_clock);
        // 6. Apply the move

        proof {
            lemma_legal_applicable(board@);
            let k = choose|k: int| 0 <= k < legal_moves(board@).len() && legal_moves(board@)[k] == player_move;
            assert(crate::board::move_applicable(board@, legal_moves(board@)[k]));
        }
        let next = board.apply_move(player_move);
        let new_bw = next.to_board_word();
        let new_fw_base = next.to_flags_word();  // [side, ep_sq, castling, 0]
        // Fold the half-move clock into flags[3]
        let new_fw = [new_fw_base[0], new_fw_base[1], new_fw_base[2], new_halfmove];
        let stored_board = to_felt_word(new_bw);
        let stored_flags = to_felt_word(new_fw);
        // 7. Detect terminal conditions

        let status = detect_terminal(&next, new_halfmove);
        let move_count = to_felt(self.move_count + 1);
        // 8. Settle or continue
        let action = if status != STATUS_ACTIVE {
            match settle_wager(
                status,
                self.wager_per_player,
                self.white_agent,
                self.black_agent,
                self.wager_asset_key,
                move_count,
            ) {
                Some(payouts) => GameAction::Settle(payouts),
                None => {
                    return Err(GameError::WagerOverflow);
                },
            }
        } else {
            GameAction::Turn(
                emit_turn_note(
                    next.side,
                    stored_board,
                    stored_flags,
                    self.white_agent,
                    self.black_agent,
                    game_id,
                    move_count,
                ),
            )
        };
        assert(new_fw@ =~= flags_after(next@, new_halfmove as int));
        self.board = stored_board;
        self.flags = stored_flags;
        self.move_count = move_count;
        self.game_status = status;
        proof {
            let want = state_after(g0, mv@);
            assert(self.board =~= want.board);
            assert(self.flags =~= want.flags);
            assert(*self == want);
            assert(self.flags[0] == (if next.side { 1u64 } else { 0u64 }));
            assert(position_of(*self).side == next.side);
            assert(expected_action(*self, game_id, action));
        }
        Ok(action)
    }

    pub fn get_board(&self) -> (w: [u64; 4])
        ensures
            w == self.board,
    {
        self.board
    }

    pub fn get_flags(&self) -> (w: [u64; 4])
        ensures
            w == self.flags,
    {
        self.flags
    }

    pub fn get_game_status(&self) -> (s: u64)
        ensures
            s == self.game_status,
    {
        self.game_status
    }

    pub fn get_move_count(&self) -> (c: u64)
        ensures
            c == self.move_count,
    {
        self.move_count
    }

    pub fn get_white_agent(&self) -> (w: [u64; 4])
        ensures
            w == self.white_agent,
    {
        self.white_agent
    }

    pub fn get_black_agent(&self) -> (w: [u64; 4])
        ensures
            w == self.black_agent,
    {
        self.black_agent
    }
}

/// The payouts distribute exactly both wagers, whatever the final status.
pub proof fn lemma_wager_conserved(status: u64, per_player: u64, white: Seq<u64>, black: Seq<u64>)
    ensures
        status == STATUS_WHITE_WINS || status == STATUS_BLACK_WINS ==> payouts_for(status, per_player, white, black).len() == 1
            && payouts_for(status, per_player, white, black)[0].1 == 2 * per_player,
        status != STATUS_WHITE_WINS && status != STATUS_BLACK_WINS ==> payouts_for(status, per_player, white, black).len() == 2
            && payouts_for(status, per_player, white, black)[0].1 + payouts_for(status, per_player, white, black)[1].1 == 2 * per_player,
{
}

/// Once a game is over every submitted move is refused and the state stays as it is.
pub proof fn lemma_finished_game_refuses(g: GameState, mv: Seq<u64>, sender: Seq<u64>)
    requires
        g.game_status != STATUS_ACTIVE,
    ensures
        refusal(g, mv, sender) == Some(GameError::GameNotActive),
{
}

/// An accepted move passes the turn to the other agent and counts one more half-move.
pub proof fn lemma_accepted_move_passes_turn(g: GameState, mv: Seq<u64>, sender: Seq<u64>)
    requires
        g.well_formed(),
        g.flags@.len() == 4,
        refusal(g, mv, sender) is None,
    ensures
        position_of(state_after(g, mv)).side == !position_of(g).side,
        state_after(g, mv).move_count == g.move_count + 1 || (g.move_count + 1 == FIELD_MODULUS && state_after(g, mv).move_count == 0),
        sender[0] == agent_to_move(g)[0] && sender[1] == agent_to_move(g)[1],
{
    let b = position_of(g);
    let next = apply_move_spec(b, word_move(mv));
    let clock = clock_after(b, word_move(mv), g.flags[3]);
    let f = flags_after(next, clock);
    assert(f[0] == (if next.side { 1u64 } else { 0u64 }));
}

/// A checkmated side never wins: with no legal move and in check, black to move means
/// white wins and white to move means black wins; with no legal move and not in check
/// the game is drawn; with a legal move it is drawn once the clock reaches 100, and goes
/// on before.
pub proof fn lemma_terminal_status(b: BoardView, halfmove_clock: u64)
    ensures
        legal_moves(b).len() == 0 && in_check_spec(b, b.side) && b.side == WHITE ==> terminal_status(
            b,
            halfmove_clock,
        ) == STATUS_BLACK_WINS,
        legal_moves(b).len() == 0 && in_check_spec(b, b.side) && b.side != WHITE ==> terminal_status(
            b,
            halfmove_clock,
        ) == STATUS_WHITE_WINS,
        legal_moves(b).len() == 0 && !in_check_spec(b, b.side) ==> terminal_status(b, halfmove_clock)
            == STATUS_DRAW,
        legal_moves(b).len() > 0 && halfmove_clock >= 100 ==> terminal_status(b, halfmove_clock) == STATUS_DRAW,
        legal_moves(b).len() > 0 && halfmove_clock < 100 ==> terminal_status(b, halfmove_clock) == STATUS_ACTIVE,
{
}

/// The half-move clock restarts at 0 after any move of a pawn of either colour and after
/// any capture, and otherwise counts one more half-move.
pub proof fn lemma_clock_rule(b: BoardView, mv: Move, current: u64)
    ensures
        b.squares[mv.from_sq() as int] == W_PAWN ==> clock_after(b, mv, current) == 0,
        b.squares[mv.from_sq() as int] == B_PAWN ==> clock_after(b, mv, current) == 0,
        b.squares[mv.to_sq() as int] != EMPTY ==> clock_after(b, mv, current) == 0,
        b.squares[mv.from_sq() as int] != W_PAWN && b.squares[mv.from_sq() as int] != B_PAWN
            && b.squares[mv.to_sq() as int] == EMPTY ==> clock_after(b, mv, current) == current + 1,
{
}

} // verus!
