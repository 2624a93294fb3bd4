//! The note scripts: what each checks of its note's storage before it acts, and the
//! words it hands to the account that consumes the note.
use vstd::prelude::*;

use crate::agent::{answer, book_move, decoded_weights, move_note_for, AgentState};
use crate::board::{decode_board, lemma_move_fields_determine, lemma_move_ranges, Move};
use crate::game::{position_of, word_move, GameState, STATUS_BLACK_WINS, STATUS_DRAW, STATUS_WHITE_WINS};
use crate::minimax::{lemma_search_move_is_legal, INF, SEARCH_DEPTH};
use crate::moves::legal_moves;

verus! {

/// An agent move note holds at least [from_sq, to_sq, promo], both squares on the board.
pub open spec fn agent_move_storage_ok(storage: Seq<u64>) -> bool {
    storage.len() >= 3 && storage[0] < 64 && storage[1] < 64
}

/// Whether the agent move note script accepts this storage.
pub fn check_agent_move_storage(storage: &Vec<u64>) -> (ok: bool)
    ensures
        ok == agent_move_storage_ok(storage@),
{
    storage.len() >= 3 && storage[0] < 64 && storage[1] < 64
}

/// The call an agent move note makes on the game: the move word [from, to, promo, 0] and
/// the sender word [prefix, suffix, 0, 0].
pub fn agent_move_call(storage: &Vec<u64>, sender_prefix: u64, sender_suffix: u64) -> (call: ([u64; 4], [u64; 4]))
    requires
        agent_move_storage_ok(storage@),
    ensures
        call.0@ == seq![storage@[0], storage@[1], storage@[2], 0u64],
        call.1@ == seq![sender_prefix, sender_suffix, 0u64, 0u64],
{
    let mv_word = [storage[0], storage[1], storage[2], 0u64];
    let sender_word = [sender_prefix, sender_suffix, 0u64, 0u64];
    assert(mv_word@ =~= seq![storage@[0], storage@[1], storage@[2], 0u64]);
    assert(sender_word@ =~= seq![sender_prefix, sender_suffix, 0u64, 0u64]);
    (mv_word, sender_word)
}

/// A move note holds at least [from_sq, to_sq, promo, board_hash], both squares on the
/// board.
pub open spec fn move_storage_ok(storage: Seq<u64>) -> bool {
    storage.len() >= 4 && storage[0] < 64 && storage[1] < 64
}

/// Whether the move note script accepts this storage.
pub fn check_move_storage(storage: &Vec<u64>) -> (ok: bool)
    ensures
        ok == move_storage_ok(storage@),
{
    storage.len() >= 4 && storage[0] < 64 && storage[1] < 64
}

/// A result note holds at least [game_id, status, game_contract_prefix], the status one of
/// the three final ones.
pub open spec fn result_storage_ok(storage: Seq<u64>) -> bool {
    storage.len() >= 3 && (storage[1] == STATUS_WHITE_WINS || storage[1] == STATUS_BLACK_WINS
        || storage[1] == STATUS_DRAW)
}

/// Whether the result note script accepts this storage.
pub fn check_result_storage(storage: &Vec<u64>) -> (ok: bool)
    ensures
        ok == result_storage_ok(storage@),
{
    if storage.len() < 3 {
        return false;
    }
    let s = storage[1];
    s == STATUS_WHITE_WINS || s == STATUS_BLACK_WINS || s == STATUS_DRAW
}

/// The call a result note makes on the registry: the game info word [game_id, 0, 0, 0] and
/// the result word [status, game_contract_prefix, 0, 0].
pub fn result_call(storage: &Vec<u64>) -> (call: ([u64; 4], [u64; 4]))
    requires
        result_storage_ok(storage@),
    ensures
        call.0@ == seq![storage@[0], 0u64, 0u64, 0u64],
        call.1@ == seq![storage@[1], storage@[2], 0u64, 0u64],
{
    let game_info = [storage[0], 0u64, 0u64, 0u64];
    let result = [storage[1], storage[2], 0u64, 0u64];
    assert(game_info@ =~= seq![storage@[0], 0u64, 0u64, 0u64]);
    assert(result@ =~= seq![storage@[1], storage@[2], 0u64, 0u64]);
    (game_info, result)
}

/// Every move note an agent emits passes the move note script's checks.
pub proof fn lemma_agent_move_notes_pass(mv: Move, board_word: [u64; 4], tag_word: [u64; 4])
    ensures
        move_storage_ok(move_note_for(mv, board_word, tag_word).inputs@),
{
    lemma_move_ranges(mv);
}

/// A move an agent's engine computes for a game's position (no book entry, some legal
/// move), relayed to the game by an agent move note, passes the game's legality check.
pub proof fn lemma_engine_move_accepted(a: AgentState, g: GameState, tag_word: [u64; 4])
    requires
        book_move(a, g.board) == 0,
        legal_moves(position_of(g)).len() > 0,
    ensures
        ({
            let note = move_note_for(answer(a, decode_board(g.board@, g.flags@), g.board), g.board, tag_word);
            let relayed = seq![note.inputs[0], note.inputs[1], note.inputs[2], 0u64];
            agent_move_storage_ok(note.inputs@) && legal_moves(position_of(g)).contains(word_move(relayed))
        }),
{
    let b = position_of(g);
    let m = answer(a, decode_board(g.board@, g.flags@), g.board);
    lemma_search_move_is_legal(b, SEARCH_DEPTH as nat, -INF as int, INF as int, decoded_weights(a.engine_weights@));
    lemma_move_ranges(m);
    lemma_move_fields_determine(m);
    let note = move_note_for(m, g.board, tag_word);
    let relayed = seq![note.inputs[0], note.inputs[1], note.inputs[2], 0u64];
    assert(word_move(relayed) == m);
}

} // verus!
