//! The agent account: its owner-controlled opening book and engine weights, its
//! win/loss counters, and the move it answers a position with.
//!
//! The account's persistent state is an `AgentState` of plain words; answering a
//! position yields the content of the move note to emit.
use vstd::prelude::*;

use crate::board::{decode_board, Board, BoardView, Move};
use crate::eval::{decode_weight, WeightAdj};
use crate::game::{felt, to_felt, FIELD_MODULUS, NOTE_TYPE_PRIVATE};
use crate::minimax::{lemma_search_move_is_legal, search_checked, search_result, search_safe, INF, SEARCH_DEPTH};
use crate::moves::legal_moves;

verus! {

/// Key-value entries of a storage map, in the order they were written.
pub type WordEntries = Vec<([u64; 4], [u64; 4])>;

/// The value most recently written under `key`, or the all-zero word.
pub open spec fn stored_word(entries: Seq<([u64; 4], [u64; 4])>, key: [u64; 4]) -> [u64; 4]
    decreases entries.len(),
{
    if entries.len() == 0 {
        [0u64, 0, 0, 0]
    } else if entries.last().0 == key {
        entries.last().1
    } else {
        stored_word(entries.drop_last(), key)
    }
}

fn same_word(a: &[u64; 4], b: &[u64; 4]) -> (eq: bool)
    ensures
        eq == (*a == *b),
{
    let eq = a[0] == b[0] && a[1] == b[1] && a[2] == b[2] && a[3] == b[3];
    assert(eq ==> *a =~= *b);
    eq
}

fn read_word(entries: &WordEntries, key: &[u64; 4]) -> (w: [u64; 4])
    ensures
        w == stored_word(entries@, *key),
{
    let mut i = entries.len();
    assert(entries@.take(i as int) =~= entries@);
    while i > 0
        invariant
            i <= entries@.len(),
            stored_word(entries@, *key) == stored_word(entries@.take(i as int), *key),
        decreases i,
    {
        assert(entries@.take(i as int).drop_last() =~= entries@.take(i - 1));
        let (k, v) = entries[i - 1];
        if same_word(&k, key) {
            return v;
        }
        i = i - 1;
    }
    [0u64, 0, 0, 0]
}

/// Script root of the move note that an agent emits.
pub const MOVE_NOTE_SCRIPT_ROOT: [u64; 4] = [1u64, 2u64, 3u64, 4u64];

/// Why an agent account operation is refused.
#[derive(Clone, Copy, Debug, PartialEq, Eq)]
pub enum AgentError {
    /// The caller is not the account's owner.
    NotOwner,
    /// A stored weight does not decode to a 32-bit offset.
    WeightOutOfRange,
    /// With the decoded weights the engine's search would leave the `i32` range.
    SearchOverflow,
}

/// The move note an agent emits: a private note running the move note script, with
/// [from_sq, to_sq, promo, board_hash] as its inputs and the given tag; its serial number
/// is [block number, agent prefix, packed_move, 0].
#[derive(Clone, Copy, Debug, PartialEq, Eq)]
pub struct MoveNote {
    pub script_root: [u64; 4],
    pub inputs: [u64; 4],
    pub packed_move: u64,
    pub tag: u64,
    pub note_type: u64,
}

/// The agent account's persistent state.
#[derive(Clone, Debug)]
pub struct AgentState {
    /// Name packed into one word.
    pub agent_name: [u64; 4],
    /// Owner account id [prefix, suffix, 0, 0].
    pub owner: [u64; 4],
    pub win_count: u64,
    pub loss_count: u64,
    /// board word -> [move_u64, 0, 0, 0]; a zero move means no book entry.
    pub opening_book: WordEntries,
    /// [slot, 0, 0, 0] -> [encoded_offset, 0, 0, 0] for the 12 weight slots.
    pub engine_weights: WordEntries,
}

/// The encoded weight stored for slot `i`.
pub open spec fn raw_weight(weights: Seq<([u64; 4], [u64; 4])>, i: int) -> u64 {
    stored_word(weights, [i as u64, 0u64, 0, 0])[0]
}

/// Every stored weight decodes without overflow.
pub open spec fn weights_decodable(weights: Seq<([u64; 4], [u64; 4])>) -> bool {
    forall|i: int| 0 <= i < 12 ==> #[trigger] raw_weight(weights, i) as i32 >= i32::MIN + 128
}

/// The decoded weight adjustments.
pub open spec fn decoded_weights(weights: Seq<([u64; 4], [u64; 4])>) -> Seq<i32> {
    Seq::new(12, |i: int| (raw_weight(weights, i) as i32 - 128) as i32)
}

/// The book move for a board word (0 when there is none).
pub open spec fn book_move(a: AgentState, board_word: [u64; 4]) -> u64 {
    stored_word(a.opening_book@, board_word)[0]
}

/// The move an agent answers a position with: the book move when there is one, else the
/// engine's best move at the default depth with the decoded weights.
pub open spec fn answer(a: AgentState, board: BoardView, board_word: [u64; 4]) -> Move {
    if book_move(a, board_word) != 0 {
        Move(book_move(a, board_word) as u16)
    } else {
        search_result(board, SEARCH_DEPTH as nat, -INF as int, INF as int, decoded_weights(a.engine_weights@)).0
    }
}

/// The note for a move: private, running the move note script, its fields and the board
/// hash as inputs, the packed move, and the tag.
pub open spec fn move_note_for(mv: Move, board_word: [u64; 4], tag_word: [u64; 4]) -> MoveNote {
    MoveNote {
        script_root: MOVE_NOTE_SCRIPT_ROOT,
        inputs: [mv.from_sq() as u64, mv.to_sq() as u64, mv.promo() as u64, board_word[0]],
        packed_move: mv.0 as u64,
        tag: tag_word[0],
        note_type: NOTE_TYPE_PRIVATE,
    }
}

impl AgentState {
    /// The account after its one-time setup: name, owner and zero counters.
    pub fn initialize(name: [u64; 4], owner: [u64; 4]) -> (a: Self)
        ensures
            a.agent_name == name,
            a.owner == owner,
            a.win_count == 0,
            a.loss_count == 0,
            a.opening_book@.len() == 0,
            a.engine_weights@.len() == 0,
    {
        AgentState {
            agent_name: name,
            owner,
            win_count: 0,
            loss_count: 0,
            opening_book: Vec::new(),
            engine_weights: Vec::new(),
        }
    }

    /// Only the owner (matched on the account id prefix) may administer the account.
    pub open spec fn is_owner(self, caller_prefix: u64) -> bool {
        caller_prefix == self.owner[0]
    }

    /// Add or overwrite one opening-book entry.
    pub fn set_opening_entry(&mut self, caller_prefix: u64, board_key: [u64; 4], move_word: [u64; 4]) -> (res: Result<(), AgentError>)
        ensures
            old(self).is_owner(caller_prefix) ==> res is Ok && final(self).opening_book@ == old(self).opening_book@.push((board_key, move_word)),
            !old(self).is_owner(caller_prefix) ==> res == Err::<(), AgentError>(AgentError::NotOwner),
            final(self).owner == old(self).owner,
            final(self).engine_weights == old(self).engine_weights,
            final(self).win_count == old(self).win_count,
            final(self).loss_count == old(self).loss_count,
            final(self).agent_name == old(self).agent_name,
            !old(self).is_owner(caller_prefix) ==> final(self).opening_book == old(self).opening_book,
    {
        if caller_prefix != self.owner[0] {
            return Err(AgentError::NotOwner);
        }
        self.opening_book.push((board_key, move_word));
        Ok(())
    }

    /// Set a weight-adjustment slot (0-11) to a raw encoded value (offset + 128).
    pub fn set_weight(&mut self, caller_prefix: u64, slot: u64, encoded: u64) -> (res: Result<(), AgentError>)
        ensures
            old(self).is_owner(caller_prefix) ==> res is Ok && final(self).engine_weights@ == old(self).engine_weights@.push(([slot, 0u64, 0, 0], [encoded, 0u64, 0, 0])),
            !old(self).is_owner(caller_prefix) ==> res == Err::<(), AgentError>(AgentError::NotOwner),
            final(self).owner == old(self).owner,
            final(self).opening_book == old(self).opening_book,
            final(self).win_count == old(self).win_count,
            final(self).loss_count == old(self).loss_count,
            final(self).agent_name == old(self).agent_name,
            !old(self).is_owner(caller_prefix) ==> final(self).engine_weights == old(self).engine_weights,
    {
        if caller_prefix != self.owner[0] {
            return Err(AgentError::NotOwner);
        }
        let key = [slot, 0u64, 0, 0];
        let val = [encoded, 0u64, 0, 0];
        self.engine_weights.push((key, val));
        Ok(())
    }

    /// Count one more win (as a field element).
    pub fn record_win(&mut self)
        requires
            old(self).win_count < FIELD_MODULUS,
        ensures
            final(self).win_count == felt((old(self).win_count + 1) as u64),
            final(self).loss_count == old(self).loss_count,
            final(self).opening_book == old(self).opening_book,
            final(self).engine_weights == old(self).engine_weights,
            final(self).owner == old(self).owner,
            final(self).agent_name == old(self).agent_name,
    {
        self.win_count = to_felt(self.win_count + 1);
    }

    /// Count one more loss (as a field element).
    pub fn record_loss(&mut self)
        requires
            old(self).loss_count < FIELD_MODULUS,
        ensures
            final(self).loss_count == felt((old(self).loss_count + 1) as u64),
            final(self).win_count == old(self).win_count,
            final(self).opening_book == old(self).opening_book,
            final(self).engine_weights == old(self).engine_weights,
            final(self).owner == old(self).owner,
            final(self).agent_name == old(self).agent_name,
    {
        self.loss_count = to_felt(self.loss_count + 1);
    }

    pub fn get_agent_name(&self) -> (w: [u64; 4])
        ensures
            w == self.agent_name,
    {
        self.agent_name
    }

    pub fn get_owner(&self) -> (w: [u64; 4])
        ensures
            w == self.owner,
    {
        self.owner
    }

    pub fn get_win_count(&self) -> (c: u64)
        ensures
            c == self.win_count,
    {
        self.win_count
    }

    pub fn get_loss_count(&self) -> (c: u64)
        ensures
            c == self.loss_count,
    {
        self.loss_count
    }

    /// Decode the twelve weight slots.
    pub fn load_weight_adj(&self) -> (adj: Option<WeightAdj>)
        ensures
            adj is Some <==> weights_decodable(self.engine_weights@),
            adj matches Some(w) ==> w@ == decoded_weights(self.engine_weights@),
    {
        let mut adj = [0i32; 12];
        for i in 0..12usize
            invariant
                adj@.len() == 12,
                forall|j: int| 0 <= j < i ==> raw_weight(self.engine_weights@, j) as i32 >= i32::MIN + 128,
                forall|j: int| 0 <= j < i ==> #[trigger] adj@[j] == decoded_weights(self.engine_weights@)[j],
        {
            let key = [i as u64, 0u64, 0, 0];
            let val = read_word(&self.engine_weights, &key);
            let raw = val[0];
            assert(key == [(i as int) as u64, 0u64, 0, 0]);
            assert(raw == raw_weight(self.engine_weights@, i as int));
            if (#[verifier::truncate] (raw as i32)) < i32::MIN + 128 {
                return None;
            }
            adj[i] = decode_weight(raw);
        }
        assert(adj@ =~= decoded_weights(self.engine_weights@));
        Some(adj)
    }

    /// Answer a position: `board_word` holds the squares and `flags` = [side, ep_sq,
    /// castling, 0]. The opening book (keyed by the board word) takes precedence over the
    /// engine. The note carries [from_sq, to_sq, promo, board_hash], the board hash being
    /// the first element of the board word; `tag_word` = [note_tag, 0, 0, 0].
    pub fn receive_move(&self, board_word: [u64; 4], flags: [u64; 4], recipient: [u64; 4], tag_word: [u64; 4]) -> (res: Result<MoveNote, AgentError>)
        ensures
            !weights_decodable(self.engine_weights@) ==> res == Err::<MoveNote, AgentError>(AgentError::WeightOutOfRange),
            weights_decodable(self.engine_weights@) && book_move(*self, board_word) == 0 && !search_safe(
                decode_board(board_word@, flags@),
                SEARCH_DEPTH as nat,
                -INF as int,
                INF as int,
                decoded_weights(self.engine_weights@),
            ) ==> res == Err::<MoveNote, AgentError>(AgentError::SearchOverflow),
            weights_decodable(self.engine_weights@) && (book_move(*self, board_word) != 0 || search_safe(
                decode_board(board_word@, flags@),
                SEARCH_DEPTH as nat,
                -INF as int,
                INF as int,
                decoded_weights(self.engine_weights@),
            )) ==> (res matches Ok(note)
                && note == move_note_for(answer(*self, decode_board(board_word@, flags@), board_word), board_word, tag_word)),
    {
        let board = Board::from_words(board_word, flags);
        let adj = match self.load_weight_adj() {
            Some(adj) => adj,
            None => {
                return Err(AgentError::WeightOutOfRange);
            },
        };
        // Opening book lookup (keyed by the raw board word).

        let book_val = read_word(&self.opening_book, &board_word);
        let book = book_val[0];
        let computed = if book != 0 {
            Move::from_u64(book)
        } else {
            match search_checked(&board, SEARCH_DEPTH, -INF, INF, &adj) {
                Some((mv, _)) => mv,
                None => {
                    return Err(AgentError::SearchOverflow);
                },
            }
        };
        // Board fingerprint for the recipient to correlate the response.

        let board_hash = board_word[0];
        let _ = recipient;
        Ok(MoveNote {
            script_root: MOVE_NOTE_SCRIPT_ROOT,
            note_type: NOTE_TYPE_PRIVATE,
            inputs: [computed.from_sq() as u64, computed.to_sq() as u64, computed.promo() as u64, board_hash],
            packed_move: computed.to_u64(),
            tag: tag_word[0],
        })
    }
}

/// Without a book entry for the position, an agent answers with a legal move whenever
/// the position has one.
pub proof fn lemma_engine_answer_is_legal(a: AgentState, board: BoardView, board_word: [u64; 4])
    requires
        book_move(a, board_word) == 0,
        legal_moves(board).len() > 0,
    ensures
        legal_moves(board).contains(answer(a, board, board_word)),
{
    lemma_search_move_is_legal(board, SEARCH_DEPTH as nat, -INF as int, INF as int, decoded_weights(a.engine_weights@));
}

} // verus!
