//! Board state representation, wire encoding and move application.
use vstd::prelude::*;

use crate::moves::{first_square_of, generate_pseudo_legal, in_check_spec, king_of, pseudo_legal_moves};

verus! {

// Piece codes.
pub const EMPTY: u8 = 0;
pub const W_PAWN: u8 = 1;
pub const W_KNIGHT: u8 = 2;
pub const W_BISHOP: u8 = 3;
pub const W_ROOK: u8 = 4;
pub const W_QUEEN: u8 = 5;
pub const W_KING: u8 = 6;
pub const B_PAWN: u8 = 7;
pub const B_KNIGHT: u8 = 8;
pub const B_BISHOP: u8 = 9;
pub const B_ROOK: u8 = 10;
pub const B_QUEEN: u8 = 11;
pub const B_KING: u8 = 12;

pub const WHITE: bool = true;
pub const BLACK: bool = false;

/// En-passant square value meaning "no en-passant target".
pub const NO_EP: u8 = 255;

/// The 16-bit packing of a move: from (6 bits) | to (6 bits) | promotion (4 bits).
/// Out-of-range arguments overlap neighbouring fields and high bits are dropped,
/// exactly as the `u16` shifts and ors do.
pub open spec fn pack_move(from: u8, to: u8, promo: u8) -> u16 {
    (from as u16) | ((to as u16) << 6u16) | ((promo as u16) << 12u16)
}

/// A chess move: from (6 bits) | to (6 bits) | promotion (4 bits) packed in a `u16`.
#[derive(Clone, Copy, PartialEq, Eq, Debug, Structural)]
pub struct Move(pub u16);

impl Move {
    pub fn new(from: u8, to: u8, promo: u8) -> (m: Self)
        ensures
            m.0 == pack_move(from, to, promo),
    {
        Move((from as u16) | ((to as u16) << 6u16) | ((promo as u16) << 12u16))
    }

    #[verifier::allow_in_spec]
    pub fn from_sq(self) -> u8
        returns
            (self.0 & 0x3Fu16) as u8,
    {
        (self.0 & 0x3Fu16) as u8
    }

    #[verifier::allow_in_spec]
    pub fn to_sq(self) -> u8
        returns
            ((self.0 >> 6u16) & 0x3Fu16) as u8,
    {
        ((self.0 >> 6u16) & 0x3Fu16) as u8
    }

    #[verifier::allow_in_spec]
    pub fn promo(self) -> u8
        returns
            ((self.0 >> 12u16) & 0x0Fu16) as u8,
    {
        ((self.0 >> 12u16) & 0x0Fu16) as u8
    }

    pub fn null() -> (m: Self)
        ensures
            m.0 == 0,
    {
        Move(0)
    }

    #[verifier::allow_in_spec]
    pub fn is_null(self) -> bool
        returns
            self.0 == 0,
    {
        self.0 == 0
    }

    /// Pack into a u64 for field-element storage.
    pub fn to_u64(self) -> (v: u64)
        ensures
            v == self.0 as u64,
    {
        self.0 as u64
    }

    /// Unpack from a u64 (the high 48 bits are dropped).
    pub fn from_u64(v: u64) -> (m: Self)
        ensures
            m.0 == v as u16,
    {
        Move(v as u16)
    }
}

/// Decoding the packing of in-range fields gives the fields back.
pub proof fn lemma_move_fields(from: u8, to: u8, promo: u8)
    requires
        from < 64,
        to < 64,
        promo < 16,
    ensures
        Move(pack_move(from, to, promo)).from_sq() == from,
        Move(pack_move(from, to, promo)).to_sq() == to,
        Move(pack_move(from, to, promo)).promo() == promo,
        pack_move(from, to, promo) != 0 <==> (from != 0 || to != 0 || promo != 0),
{
    let f = from as u16;
    let t = to as u16;
    let p = promo as u16;
    assert(((f | (t << 6u16) | (p << 12u16)) & 0x3Fu16) == f) by (bit_vector)
        requires f < 64u16, t < 64u16, p < 16u16;
    assert((((f | (t << 6u16) | (p << 12u16)) >> 6u16) & 0x3Fu16) == t) by (bit_vector)
        requires f < 64u16, t < 64u16, p < 16u16;
    assert((((f | (t << 6u16) | (p << 12u16)) >> 12u16) & 0x0Fu16) == p) by (bit_vector)
        requires f < 64u16, t < 64u16, p < 16u16;
    assert(((f | (t << 6u16) | (p << 12u16)) != 0u16) == (f != 0u16 || t != 0u16 || p != 0u16))
        by (bit_vector)
        requires f < 64u16, t < 64u16, p < 16u16;
}

/// Packing a move into a u64 and unpacking it gives the same move.
pub proof fn lemma_move_u64_roundtrip(m: Move)
    ensures
        Move((m.0 as u64) as u16) == m,
{
}

/// Two moves with the same in-range fields are the same move.
pub proof fn lemma_move_fields_determine(m: Move)
    requires
        m.promo() < 16,
    ensures
        m.0 == pack_move(m.from_sq(), m.to_sq(), m.promo()),
{
    let v = m.0;
    assert(v == ((((v & 0x3Fu16) as u8) as u16) | (((((v >> 6u16) & 0x3Fu16) as u8) as u16) << 6u16)
        | (((((v >> 12u16) & 0x0Fu16) as u8) as u16) << 12u16))) by (bit_vector);
}

/// The decoded fields of any move are in range.
pub proof fn lemma_move_ranges(m: Move)
    ensures
        m.from_sq() < 64,
        m.to_sq() < 64,
        m.promo() < 16,
{
    let v = m.0;
    assert((v & 0x3Fu16) < 64) by (bit_vector);
    assert(((v >> 6u16) & 0x3Fu16) < 64) by (bit_vector);
    assert(((v >> 12u16) & 0x0Fu16) < 16) by (bit_vector);
}

/// The abstract state of a board.
pub struct BoardView {
    pub squares: Seq<u8>,
    pub side: bool,
    pub ep_sq: u8,
    pub castling: u8,
}

/// Board state.
///
/// Wire format of the board word (4 x u64): each u64 holds 16 squares x 4 bits,
/// squares ordered a1=0 ... h8=63 (rank-major).
///
/// Wire format of the flags word (4 x u64):
///   [0] = side (1=white, 0=black), [1] = ep_sq (0-63, or 255 = none),
///   [2] = castling bitmask (WK=1, WQ=2, BK=4, BQ=8), [3] = reserved (0).
#[derive(Clone, Copy, Debug)]
pub struct Board {
    pub squares: [u8; 64],
    pub side: bool,
    pub ep_sq: u8,
    pub castling: u8,
}

impl View for Board {
    type V = BoardView;

    open spec fn view(&self) -> BoardView {
        BoardView { squares: self.squares@, side: self.side, ep_sq: self.ep_sq, castling: self.castling }
    }
}

pub open spec fn is_white(p: u8) -> bool {
    W_PAWN <= p <= W_KING
}

pub open spec fn is_black(p: u8) -> bool {
    p >= B_PAWN
}

pub open spec fn is_own_piece(p: u8, side: bool) -> bool {
    if side == WHITE {
        is_white(p)
    } else {
        is_black(p)
    }
}

pub open spec fn is_opponent_piece(p: u8, side: bool) -> bool {
    p != EMPTY && !is_own_piece(p, side)
}

/// The standard starting position.
pub open spec fn start_squares() -> Seq<u8> {
    Seq::new(
        64,
        |i: int|
            if i == 0 || i == 7 {
                W_ROOK
            } else if i == 1 || i == 6 {
                W_KNIGHT
            } else if i == 2 || i == 5 {
                W_BISHOP
            } else if i == 3 {
                W_QUEEN
            } else if i == 4 {
                W_KING
            } else if 8 <= i < 16 {
                W_PAWN
            } else if 48 <= i < 56 {
                B_PAWN
            } else if i == 56 || i == 63 {
                B_ROOK
            } else if i == 57 || i == 62 {
                B_KNIGHT
            } else if i == 58 || i == 61 {
                B_BISHOP
            } else if i == 59 {
                B_QUEEN
            } else if i == 60 {
                B_KING
            } else {
                EMPTY
            },
    )
}

/// The starting position: white to move, no en-passant square, all castling rights.
pub open spec fn start_position() -> BoardView {
    BoardView { squares: start_squares(), side: WHITE, ep_sq: NO_EP, castling: 0b1111 }
}

/// Nibble `k` (0..16) of a 64-bit word.
pub open spec fn nibble(w: u64, k: int) -> u8 {
    ((w >> ((k * 4) as u64)) & 0xFu64) as u8
}

/// The squares decoded from a board word.
pub open spec fn decode_squares(board: Seq<u64>) -> Seq<u8> {
    Seq::new(64, |i: int| nibble(board[i / 16], i % 16))
}

/// The first `k` squares of group `j` (squares 16j .. 16j+k) or-ed into one word, each
/// shifted to its nibble.
pub open spec fn pack_group(s: Seq<u8>, j: int, k: int) -> u64
    decreases k,
{
    if k <= 0 {
        0
    } else {
        pack_group(s, j, k - 1) | ((s[16 * j + k - 1] as u64) << (((k - 1) * 4) as u64))
    }
}

/// The board word of a sequence of 64 squares.
pub open spec fn encode_squares(s: Seq<u8>) -> Seq<u64> {
    seq![pack_group(s, 0, 16), pack_group(s, 1, 16), pack_group(s, 2, 16), pack_group(s, 3, 16)]
}

/// The flags word of a board.
pub open spec fn encode_flags(b: BoardView) -> Seq<u64> {
    seq![if b.side { 1 } else { 0 }, b.ep_sq as u64, b.castling as u64, 0]
}

/// The board a pair of wire words decodes to.
pub open spec fn decode_board(board: Seq<u64>, flags: Seq<u64>) -> BoardView {
    BoardView {
        squares: decode_squares(board),
        side: flags[0] == 1,
        ep_sq: flags[1] as u8,
        castling: flags[2] as u8,
    }
}

/// How many squares of group `j` are packed once the first `sq` squares are.
pub open spec fn group_progress(sq: int, j: int) -> int {
    if sq <= 16 * j {
        0
    } else if sq >= 16 * j + 16 {
        16
    } else {
        sq - 16 * j
    }
}

/// The move is a pawn capture onto the en-passant square, which also removes the
/// pawn one rank behind the target.
pub open spec fn is_ep_capture(b: BoardView, mv: Move) -> bool {
    let piece = b.squares[mv.from_sq() as int];
    (piece == W_PAWN || piece == B_PAWN) && b.ep_sq != NO_EP && mv.to_sq() == b.ep_sq
}

/// The square of the pawn taken en passant (one rank behind the target, as seen by the
/// side to move).
pub open spec fn ep_victim_square(b: BoardView, mv: Move) -> int {
    if b.side == WHITE {
        mv.to_sq() - 8
    } else {
        mv.to_sq() + 8
    }
}

/// Applying the move stays on the board: an en-passant victim square exists.
pub open spec fn move_applicable(b: BoardView, mv: Move) -> bool {
    is_ep_capture(b, mv) ==> 0 <= ep_victim_square(b, mv) < 64
}

/// Castling rights after the move: a king move drops both of its side's rights, and a
/// move from a rook's home corner drops that corner's right.
pub open spec fn castling_after(b: BoardView, mv: Move) -> u8 {
    let from = mv.from_sq();
    let piece = b.squares[from as int];
    let c1 = if piece == W_KING { b.castling & !0b0011u8 } else { b.castling };
    let c2 = if piece == B_KING { c1 & !0b1100u8 } else { c1 };
    let c3 = if from == 0 { c2 & !0b0010u8 } else { c2 };
    let c4 = if from == 7 { c3 & !0b0001u8 } else { c3 };
    let c5 = if from == 56 { c4 & !0b1000u8 } else { c4 };
    if from == 63 { c5 & !0b0100u8 } else { c5 }
}

/// En-passant target after the move: the square passed over by a double pawn push.
pub open spec fn ep_after(b: BoardView, mv: Move) -> u8 {
    let from = mv.from_sq() as int;
    let to = mv.to_sq() as int;
    let piece = b.squares[from];
    if piece == B_PAWN && from == to + 16 {
        (to + 8) as u8
    } else if piece == W_PAWN && to == from + 16 {
        (from + 8) as u8
    } else {
        NO_EP
    }
}

/// The squares after the move: the mover leaves `from`, an en-passant victim is removed,
/// `to` receives the mover (or the promotion piece), and a king's two-square move also
/// moves the rook of that corner.
pub open spec fn squares_after(b: BoardView, mv: Move) -> Seq<u8> {
    let from = mv.from_sq() as int;
    let to = mv.to_sq() as int;
    let piece = b.squares[from];
    let s1 = b.squares.update(from, EMPTY);
    let s2 = if is_ep_capture(b, mv) { s1.update(ep_victim_square(b, mv), EMPTY) } else { s1 };
    let s3 = s2.update(to, if mv.promo() != 0 { mv.promo() } else { piece });
    let s4 = if piece == W_KING && from == 4 && to == 6 {
        s3.update(5, W_ROOK).update(7, EMPTY)
    } else {
        s3
    };
    let s5 = if piece == W_KING && from == 4 && to == 2 {
        s4.update(3, W_ROOK).update(0, EMPTY)
    } else {
        s4
    };
    let s6 = if piece == B_KING && from == 60 && to == 62 {
        s5.update(61, B_ROOK).update(63, EMPTY)
    } else {
        s5
    };
    if piece == B_KING && from == 60 && to == 58 {
        s6.update(59, B_ROOK).update(56, EMPTY)
    } else {
        s6
    }
}

/// The board after a move: the side to move passes to the opponent.
pub open spec fn apply_move_spec(b: BoardView, mv: Move) -> BoardView {
    BoardView {
        squares: squares_after(b, mv),
        side: !b.side,
        ep_sq: ep_after(b, mv),
        castling: castling_after(b, mv),
    }
}

/// A castling king move brings its rook with it: after e1-g1 the h1 rook stands on f1,
/// after e1-c1 the a1 rook stands on d1 (and likewise for black on the eighth rank); the
/// corner the rook left, and the king's square, are empty, and no other square changes.
pub proof fn lemma_castling_moves_rook(b: BoardView, mv: Move, king: u8, rook: u8, rook_from: int, rook_to: int)
    requires
        b.squares.len() == 64,
        mv.promo() == 0,
        !is_ep_capture(b, mv),
        b.squares[mv.from_sq() as int] == king,
        (king == W_KING && rook == W_ROOK && mv.from_sq() == 4 && ((mv.to_sq() == 6 && rook_from == 7 && rook_to
            == 5) || (mv.to_sq() == 2 && rook_from == 0 && rook_to == 3))) || (king == B_KING && rook == B_ROOK
            && mv.from_sq() == 60 && ((mv.to_sq() == 62 && rook_from == 63 && rook_to == 61) || (mv.to_sq() == 58
            && rook_from == 56 && rook_to == 59))),
    ensures
        apply_move_spec(b, mv).squares[mv.to_sq() as int] == king,
        apply_move_spec(b, mv).squares[mv.from_sq() as int] == EMPTY,
        apply_move_spec(b, mv).squares[rook_to] == rook,
        apply_move_spec(b, mv).squares[rook_from] == EMPTY,
        forall|i: int|
            0 <= i < 64 && i != mv.from_sq() && i != mv.to_sq() && i != rook_from && i != rook_to
                ==> #[trigger] apply_move_spec(b, mv).squares[i] == b.squares[i],
        apply_move_spec(b, mv).squares.len() == 64,
{
}

/// A move that captures nothing and promotes nothing keeps the pieces on the board: the
/// multiset of square contents is unchanged. (For a castling king move the rook must stand
/// in its corner and the square it moves to must be empty.)
pub proof fn lemma_quiet_move_keeps_pieces(b: BoardView, mv: Move)
    requires
        b.squares.len() == 64,
        mv.from_sq() != mv.to_sq(),
        b.squares[mv.to_sq() as int] == EMPTY,
        mv.promo() == 0,
        !is_ep_capture(b, mv),
        b.squares[mv.from_sq() as int] == W_KING && mv.from_sq() == 4 && mv.to_sq() == 6 ==> b.squares[7] == W_ROOK
            && b.squares[5] == EMPTY,
        b.squares[mv.from_sq() as int] == W_KING && mv.from_sq() == 4 && mv.to_sq() == 2 ==> b.squares[0] == W_ROOK
            && b.squares[3] == EMPTY,
        b.squares[mv.from_sq() as int] == B_KING && mv.from_sq() == 60 && mv.to_sq() == 62 ==> b.squares[63]
            == B_ROOK && b.squares[61] == EMPTY,
        b.squares[mv.from_sq() as int] == B_KING && mv.from_sq() == 60 && mv.to_sq() == 58 ==> b.squares[56]
            == B_ROOK && b.squares[59] == EMPTY,
    ensures
        apply_move_spec(b, mv).squares.to_multiset() =~= b.squares.to_multiset(),
{
    broadcast use vstd::seq_lib::group_to_multiset_ensures;

    lemma_move_ranges(mv);
    let from = mv.from_sq() as int;
    let to = mv.to_sq() as int;
    let piece = b.squares[from];
    let m0 = b.squares.to_multiset();
    let s1 = b.squares.update(from, EMPTY);
    assert(s1.to_multiset() =~= m0.insert(EMPTY).remove(piece));
    let s3 = s1.update(to, piece);
    assert(s3.to_multiset() =~= m0);
    let s4 = if piece == W_KING && from == 4 && to == 6 {
        s3.update(5, W_ROOK).update(7, EMPTY)
    } else {
        s3
    };
    assert(s4.to_multiset() =~= m0);
    let s5 = if piece == W_KING && from == 4 && to == 2 {
        s4.update(3, W_ROOK).update(0, EMPTY)
    } else {
        s4
    };
    assert(s5.to_multiset() =~= m0);
    let s6 = if piece == B_KING && from == 60 && to == 62 {
        s5.update(61, B_ROOK).update(63, EMPTY)
    } else {
        s5
    };
    assert(s6.to_multiset() =~= m0);
    let s7 = if piece == B_KING && from == 60 && to == 58 {
        s6.update(59, B_ROOK).update(56, EMPTY)
    } else {
        s6
    };
    assert(s7.to_multiset() =~= m0);
    assert(apply_move_spec(b, mv).squares == s7);
}

proof fn lemma_rights_bits(c: u8, r: u8, wk: bool, bk: bool, a1: bool, h1: bool, a8: bool, h8: bool)
    by (bit_vector)
    requires
        r == ({
            let c1 = if wk { c & !0b0011u8 } else { c };
            let c2 = if bk { c1 & !0b1100u8 } else { c1 };
            let c3 = if a1 { c2 & !0b0010u8 } else { c2 };
            let c4 = if h1 { c3 & !0b0001u8 } else { c3 };
            let c5 = if a8 { c4 & !0b1000u8 } else { c4 };
            if h8 { c5 & !0b0100u8 } else { c5 }
        }),
    ensures
        wk ==> r & 3u8 == 0,
        bk ==> r & 12u8 == 0,
        a1 ==> r & 2u8 == 0,
        h1 ==> r & 1u8 == 0,
        a8 ==> r & 8u8 == 0,
        h8 ==> r & 4u8 == 0,
        r & !c == 0,
        !wk && !bk && !a1 && !h1 && !a8 && !h8 ==> r == c,
{
}

/// What applying a move does: the other side is to move; the moving piece (or the
/// promotion piece) stands on the target and its square is emptied; a pawn taking en
/// passant removes the pawn behind the target; no other square changes but the rook's
/// squares of a castling king move; a double pawn push leaves the passed square as the
/// en-passant square, any other move none; castling rights are only ever lost: both of a
/// colour when its king moves, and the matching one when a piece leaves a corner.
pub proof fn lemma_apply_move_effect(b: BoardView, mv: Move)
    requires
        b.squares.len() == 64,
        move_applicable(b, mv),
    ensures
        ({
            let n = apply_move_spec(b, mv);
            let from = mv.from_sq() as int;
            let to = mv.to_sq() as int;
            let piece = b.squares[from];
            let ep_take = (piece == W_PAWN || piece == B_PAWN) && b.ep_sq != NO_EP && to == b.ep_sq;
            let victim = if b.side == WHITE { to - 8 } else { to + 8 };
            let castle = (piece == W_KING && from == 4 && (to == 6 || to == 2)) || (piece == B_KING && from == 60 && (
            to == 62 || to == 58));
            &&& n.side == !b.side
            &&& n.squares.len() == 64
            &&& n.squares[to] == (if mv.promo() != 0 { mv.promo() } else { piece })
            &&& from != to ==> n.squares[from] == EMPTY
            &&& ep_take && victim != to ==> n.squares[victim] == EMPTY
            &&& forall|i: int|
                0 <= i < 64 && i != from && i != to && !(ep_take && i == victim) && !(castle && (i == 7 || i == 5 || i
                    == 0 || i == 3 || i == 63 || i == 61 || i == 56 || i == 59)) ==> #[trigger] n.squares[i]
                    == b.squares[i]
            &&& (piece == W_PAWN && to == from + 16 ==> n.ep_sq == from + 8)
            &&& (piece == B_PAWN && from == to + 16 ==> n.ep_sq == to + 8)
            &&& (!(piece == W_PAWN && to == from + 16) && !(piece == B_PAWN && from == to + 16) ==> n.ep_sq == NO_EP)
            &&& (piece == W_KING ==> n.castling & 3u8 == 0)
            &&& (piece == B_KING ==> n.castling & 12u8 == 0)
            &&& (from == 0 ==> n.castling & 2u8 == 0)
            &&& (from == 7 ==> n.castling & 1u8 == 0)
            &&& (from == 56 ==> n.castling & 8u8 == 0)
            &&& (from == 63 ==> n.castling & 4u8 == 0)
            &&& n.castling & !b.castling == 0
            &&& (piece != W_KING && piece != B_KING && from != 0 && from != 7 && from != 56 && from != 63
                ==> n.castling == b.castling)
        }),
{
    lemma_move_ranges(mv);
    let from = mv.from_sq();
    let piece = b.squares[from as int];
    lemma_rights_bits(
        b.castling,
        castling_after(b, mv),
        piece == W_KING,
        piece == B_KING,
        from == 0,
        from == 7,
        from == 56,
        from == 63,
    );
}

/// Every square holds a value that fits in a nibble.
pub open spec fn squares_fit_nibbles(s: Seq<u8>) -> bool {
    forall|i: int| 0 <= i < s.len() ==> #[trigger] s[i] < 16
}

impl Board {
    /// Standard starting position.
    pub fn startpos() -> (b: Self)
        ensures
            b@ == start_position(),
    {
        let mut sq = [EMPTY; 64];
        sq[0] = W_ROOK;
        sq[1] = W_KNIGHT;
        sq[2] = W_BISHOP;
        sq[3] = W_QUEEN;
        sq[4] = W_KING;
        sq[5] = W_BISHOP;
        sq[6] = W_KNIGHT;
        sq[7] = W_ROOK;
        for i in 8..16usize
            invariant
                sq@.len() == 64,
                forall|k: int| 0 <= k < 64 ==> #[trigger] sq@[k] == (if 8 <= k < 16 {
                    if k < i { W_PAWN } else { EMPTY }
                } else if k >= 16 {
                    EMPTY
                } else {
                    start_squares()[k]
                }),
        {
            sq[i] = W_PAWN;
        }
        sq[56] = B_ROOK;
        sq[57] = B_KNIGHT;
        sq[58] = B_BISHOP;
        sq[59] = B_QUEEN;
        sq[60] = B_KING;
        sq[61] = B_BISHOP;
        sq[62] = B_KNIGHT;
        sq[63] = B_ROOK;
        for i in 48..56usize
            invariant
                sq@.len() == 64,
                forall|k: int| 0 <= k < 64 ==> #[trigger] sq@[k] == (if 48 <= k < 56 && k >= i {
                    EMPTY
                } else {
                    start_squares()[k]
                }),
        {
            sq[i] = B_PAWN;
        }
        assert(sq@ =~= start_squares());
        Board { squares: sq, side: WHITE, ep_sq: NO_EP, castling: 0b1111 }
    }

    /// Decode from wire words (each `[u64; 4]` corresponds to one storage word).
    pub fn from_words(board: [u64; 4], flags: [u64; 4]) -> (b: Self)
        ensures
            b@ == decode_board(board@, flags@),
    {
        let mut squares = [EMPTY; 64];
        for felt_idx in 0..4usize
            invariant
                squares@.len() == 64,
                forall|k: int|
                    0 <= k < felt_idx * 16 ==> #[trigger] squares@[k] == nibble(board[k / 16], k % 16),
        {
            let val = board[felt_idx];
            for nib in 0..16usize
                invariant
                    squares@.len() == 64,
                    felt_idx < 4,
                    val == board[felt_idx as int],
                    forall|k: int|
                        0 <= k < felt_idx * 16 + nib ==> #[trigger] squares@[k] == nibble(
                            board[k / 16],
                            k % 16,
                        ),
            {
                squares[felt_idx * 16 + nib] = ((val >> ((nib * 4) as u64)) & 0xFu64) as u8;
            }
        }
        let b = Board { squares, side: flags[0] == 1, ep_sq: flags[1] as u8, castling: flags[2] as u8 };
        assert(b@.squares =~= decode_squares(board@));
        b
    }

    /// Encode the squares into a board word.
    pub fn to_board_word(&self) -> (out: [u64; 4])
        ensures
            out@ == encode_squares(self@.squares),
    {
        let mut out = [0u64; 4];
        for sq in 0..64usize
            invariant
                out@.len() == 4,
                forall|j: int|
                    0 <= j < 4 ==> #[trigger] out@[j] == pack_group(
                        self.squares@,
                        j,
                        group_progress(sq as int, j),
                    ),
        {
            let j = sq / 16;
            let k = sq % 16;
            assert(pack_group(self.squares@, j as int, k + 1) == pack_group(self.squares@, j as int, k as int)
                | ((self.squares@[16 * j + k] as u64) << ((k * 4) as u64)));
            out[j] = out[j] | ((self.squares[sq] as u64) << ((k * 4) as u64));
        }
        assert(out@ =~= encode_squares(self@.squares));
        out
    }

    /// Encode the flags into a flags word.
    pub fn to_flags_word(&self) -> (out: [u64; 4])
        ensures
            out@ == encode_flags(self@),
    {
        let out = [if self.side { 1 } else { 0 }, self.ep_sq as u64, self.castling as u64, 0];
        assert(out@ =~= encode_flags(self@));
        out
    }

    pub fn piece_at(&self, sq: u8) -> (p: u8)
        requires
            sq < 64,
        ensures
            p == self@.squares[sq as int],
    {
        self.squares[sq as usize]
    }

    /// Apply a move, returning a new board.
    pub fn apply_move(&self, mv: Move) -> (next: Self)
        requires
            move_applicable(self@, mv),
        ensures
            next@ == apply_move_spec(self@, mv),
    {
        proof {
            lemma_move_ranges(mv);
        }
        let mut next = *self;
        let from = mv.from_sq() as usize;
        let to = mv.to_sq() as usize;
        let piece = next.squares[from];
        next.squares[from] = EMPTY;

        // En-passant capture
        if (piece == W_PAWN || piece == B_PAWN) && self.ep_sq != NO_EP && to == self.ep_sq as usize {
            let cap = if self.side == WHITE { to - 8 } else { to + 8 };
            next.squares[cap] = EMPTY;
        }
        // Promotion

        next.squares[to] = if mv.promo() != 0 { mv.promo() } else { piece };

        // Update en-passant square
        next.ep_sq = NO_EP;
        if piece == W_PAWN && to == from + 16 {
            next.ep_sq = (from + 8) as u8;
        }
        if piece == B_PAWN && from == to + 16 {
            next.ep_sq = (to + 8) as u8;
        }
        // Castling king rook moves

        if piece == W_KING {
            next.castling = next.castling & !0b0011u8;
            if from == 4 && to == 6 {
                next.squares[5] = W_ROOK;
                next.squares[7] = EMPTY;
            }
            if from == 4 && to == 2 {
                next.squares[3] = W_ROOK;
                next.squares[0] = EMPTY;
            }
        }
        if piece == B_KING {
            next.castling = next.castling & !0b1100u8;
            if from == 60 && to == 62 {
                next.squares[61] = B_ROOK;
                next.squares[63] = EMPTY;
            }
            if from == 60 && to == 58 {
                next.squares[59] = B_ROOK;
                next.squares[56] = EMPTY;
            }
        }
        if from == 0 {
            next.castling = next.castling & !0b0010u8;
        }
        if from == 7 {
            next.castling = next.castling & !0b0001u8;
        }
        if from == 56 {
            next.castling = next.castling & !0b1000u8;
        }
        if from == 63 {
            next.castling = next.castling & !0b0100u8;
        }
        next.side = !self.side;
        assert(next@.squares =~= squares_after(self@, mv));
        next
    }

    /// True if `side`'s king is attacked by an opponent pseudo-legal move.
    pub fn in_check(&self, side: bool) -> (r: bool)
        ensures
            r == in_check_spec(self@, side),
    {
        let king = if side == WHITE { W_KING } else { B_KING };
        let mut king_sq = 64u8;
        let mut sq = 0u8;
        while sq < 64 && king_sq == 64
            invariant
                sq <= 64,
                king == king_of(side),
                king_sq == 64 || (king_sq < 64 && king_sq == first_square_of(self@.squares, king, 0)),
                king_sq == 64 ==> first_square_of(self@.squares, king, 0) == first_square_of(
                    self@.squares,
                    king,
                    sq as int,
                ),
            decreases 64 - sq, king_sq,
        {
            if self.squares[sq as usize] == king {
                king_sq = sq;
            } else {
                sq = sq + 1;
            }
        }
        if king_sq == 64 {
            // no king (shouldn't happen in legal positions)
            return false;
        }
        let moves = generate_pseudo_legal(self, !side);
        let mut i = 0usize;
        while i < moves.len()
            invariant
                i <= moves@.len(),
                king_sq < 64,
                king_sq == first_square_of(self@.squares, king_of(side), 0),
                moves@ == pseudo_legal_moves(self@, !side),
                forall|j: int| 0 <= j < i ==> #[trigger] moves@[j].to_sq() != king_sq,
            decreases moves.len() - i,
        {
            if moves[i].to_sq() == king_sq {
                assert(pseudo_legal_moves(self@, !side)[i as int].to_sq() == king_sq);
                return true;
            }
            i = i + 1;
        }
        false
    }

    pub fn is_white_piece(p: u8) -> (r: bool)
        ensures
            r == is_white(p),
    {
        p >= W_PAWN && p <= W_KING
    }

    pub fn is_black_piece(p: u8) -> (r: bool)
        ensures
            r == is_black(p),
    {
        p >= B_PAWN
    }

    pub fn is_own(p: u8, side: bool) -> (r: bool)
        ensures
            r == is_own_piece(p, side),
    {
        if side == WHITE {
            Self::is_white_piece(p)
        } else {
            Self::is_black_piece(p)
        }
    }

    pub fn is_opponent(p: u8, side: bool) -> (r: bool)
        ensures
            r == is_opponent_piece(p, side),
    {
        p != EMPTY && !Self::is_own(p, side)
    }
}

} // verus!

verus! {

proof fn lemma_pack_step_bits(a: u64, x: u64, n: u64, i: u64)
    requires
        n < 16,
        i <= n,
        a >> (4 * n) == 0,
        x < 16,
    ensures
        i < n ==> ((a | (x << (4 * n))) >> (4 * i)) & 0xFu64 == (a >> (4 * i)) & 0xFu64,
        i == n ==> ((a | (x << (4 * n))) >> (4 * i)) & 0xFu64 == x,
        n + 1 < 16 ==> (a | (x << (4 * n))) >> (4 * (n + 1)) == 0,
{
    assert(i < n ==> ((a | (x << (4 * n))) >> (4 * i)) & 0xFu64 == (a >> (4 * i)) & 0xFu64) by (bit_vector)
        requires n < 16, i <= n, a >> (4 * n) == 0, x < 16;
    assert(i == n ==> ((a | (x << (4 * n))) >> (4 * i)) & 0xFu64 == x) by (bit_vector)
        requires n < 16, i <= n, a >> (4 * n) == 0, x < 16;
    assert(n + 1 < 16 ==> (a | (x << (4 * n))) >> (4 * (n + 1)) == 0) by (bit_vector)
        requires n < 16, i <= n, a >> (4 * n) == 0, x < 16;
}

/// Packing nibble-sized squares keeps each square in its own nibble.
proof fn lemma_pack_group_nibbles(s: Seq<u8>, j: int, n: int)
    requires
        0 <= j < 4,
        0 <= n <= 16,
        s.len() == 64,
        squares_fit_nibbles(s),
    ensures
        n < 16 ==> pack_group(s, j, n) >> ((4 * n) as u64) == 0,
        forall|i: int| 0 <= i < n ==> #[trigger] nibble(pack_group(s, j, n), i) == s[16 * j + i],
    decreases n,
{
    if n > 0 {
        lemma_pack_group_nibbles(s, j, n - 1);
        let a = pack_group(s, j, n - 1);
        let x = s[16 * j + n - 1] as u64;
        assert(s[16 * j + n - 1] < 16);
        let m = (n - 1) as u64;
        assert(((4 * (n - 1)) as u64) == 4 * m);
        assert((((n - 1) * 4) as u64) == 4 * m);
        assert(pack_group(s, j, n) == a | (x << (4 * m)));
        assert forall|i: int| 0 <= i < n implies #[trigger] nibble(pack_group(s, j, n), i) == s[16 * j
            + i] by {
            lemma_pack_step_bits(a, x, m, i as u64);
            let sh = (i * 4) as u64;
            assert(sh == 4 * (i as u64));
            if i < n - 1 {
                assert(nibble(a, i) == s[16 * j + i]);
                assert(nibble(a, i) == ((a >> sh) & 0xFu64) as u8);
            } else {
                assert(i == n - 1);
                assert(((a | (x << (4 * m))) >> sh) & 0xFu64 == x);
            }
        }
        lemma_pack_step_bits(a, x, m, m);
        assert(((4 * n) as u64) == 4 * (m + 1));
    } else {
        assert((0u64 >> 0u64) == 0) by (bit_vector);
    }
}

/// Encoding nibble-sized squares and decoding them again gives the same board.
pub proof fn lemma_board_roundtrip(b: BoardView)
    requires
        b.squares.len() == 64,
        squares_fit_nibbles(b.squares),
    ensures
        decode_board(encode_squares(b.squares), encode_flags(b)) == b,
{
    let w = encode_squares(b.squares);
    assert forall|i: int| 0 <= i < 64 implies #[trigger] decode_squares(w)[i] == b.squares[i] by {
        lemma_pack_group_nibbles(b.squares, i / 16, 16);
    }
    assert(decode_squares(w) =~= b.squares);
}

proof fn lemma_unpack_step_bits(w: u64, n: u64)
    requires
        n < 16,
    ensures
        n + 1 < 16 ==> (w & !(0xFFFF_FFFF_FFFF_FFFFu64 << (4 * n))) | (((((w >> (4 * n)) & 0xFu64) as u8) as u64) << (4
            * n)) == w & !(0xFFFF_FFFF_FFFF_FFFFu64 << (4 * (n + 1))),
        n + 1 == 16 ==> (w & !(0xFFFF_FFFF_FFFF_FFFFu64 << (4 * n))) | (((((w >> (4 * n)) & 0xFu64) as u8) as u64) << (4
            * n)) == w,
{
    assert(n + 1 < 16 ==> (w & !(0xFFFF_FFFF_FFFF_FFFFu64 << (4 * n))) | (((((w >> (4 * n)) & 0xFu64) as u8) as u64) << (4
        * n)) == w & !(0xFFFF_FFFF_FFFF_FFFFu64 << (4 * (n + 1)))) by (bit_vector)
        requires n < 16;
    assert(n + 1 == 16 ==> (w & !(0xFFFF_FFFF_FFFF_FFFFu64 << (4 * n))) | (((((w >> (4 * n)) & 0xFu64) as u8) as u64) << (4
        * n)) == w) by (bit_vector)
        requires n < 16;
}

/// Packing the nibbles of a word rebuilds its low bits.
proof fn lemma_unpack_group(w: Seq<u64>, j: int, n: int)
    requires
        w.len() == 4,
        0 <= j < 4,
        0 <= n <= 16,
    ensures
        n < 16 ==> pack_group(decode_squares(w), j, n) == w[j] & !(0xFFFF_FFFF_FFFF_FFFFu64 << ((4 * n) as u64)),
        n == 16 ==> pack_group(decode_squares(w), j, n) == w[j],
    decreases n,
{
    if n > 0 {
        lemma_unpack_group(w, j, n - 1);
        let m = (n - 1) as u64;
        lemma_unpack_step_bits(w[j], m);
        assert(((4 * (n - 1)) as u64) == 4 * m);
        assert((((n - 1) * 4) as u64) == 4 * m);
        assert(((4 * n) as u64) == 4 * (m + 1));
        assert((16 * j + n - 1) / 16 == j);
        assert((16 * j + n - 1) % 16 == n - 1);
    } else {
        let x = w[j];
        assert(x & !(0xFFFF_FFFF_FFFF_FFFFu64 << 0u64) == 0) by (bit_vector);
    }
}

/// Decoding any board word and encoding the squares again gives the same word.
pub proof fn lemma_board_word_roundtrip(w: Seq<u64>)
    requires
        w.len() == 4,
    ensures
        encode_squares(decode_squares(w)) == w,
{
    lemma_unpack_group(w, 0, 16);
    lemma_unpack_group(w, 1, 16);
    lemma_unpack_group(w, 2, 16);
    lemma_unpack_group(w, 3, 16);
    assert(encode_squares(decode_squares(w)) =~= w);
}

/// Decoded squares always fit in a nibble.
pub proof fn lemma_decoded_squares_fit(w: Seq<u64>)
    requires
        w.len() == 4,
    ensures
        decode_squares(w).len() == 64,
        squares_fit_nibbles(decode_squares(w)),
{
    assert forall|i: int| 0 <= i < 64 implies #[trigger] decode_squares(w)[i] < 16 by {
        let x = w[i / 16];
        let sh = ((i % 16) * 4) as u64;
        assert(((x >> sh) & 0xFu64) < 16) by (bit_vector);
    }
}

} // verus!
