//! Pseudo-legal and legal move generation.
use vstd::prelude::*;

use crate::board::{
    apply_move_spec, lemma_move_ranges, move_applicable, lemma_move_fields, is_black, is_opponent_piece, is_own_piece, is_white, pack_move, Board, BoardView, Move, B_BISHOP,
    B_KING, B_KNIGHT, B_PAWN, B_QUEEN, B_ROOK, EMPTY, NO_EP, WHITE, W_BISHOP, W_KING, W_KNIGHT,
    W_PAWN, W_QUEEN, W_ROOK,
};

verus! {

// ── Geometry ────────────────────────────────────────────────────────────────

/// The square `dr` ranks and `df` files away from `sq`, if it is on the board.
pub open spec fn square_offset(sq: u8, dr: int, df: int) -> Option<u8> {
    let r = sq / 8 + dr;
    let f = sq % 8 + df;
    if r < 0 || r > 7 || f < 0 || f > 7 {
        None
    } else {
        Some((r * 8 + f) as u8)
    }
}

/// The move with the given fields.
pub open spec fn mk(from: u8, to: u8, promo: u8) -> Move {
    Move(pack_move(from, to, promo))
}

pub const BISHOP_DIRS: [(i8, i8); 4] = [(1, 1), (1, -1), (-1, 1), (-1, -1)];

pub const ROOK_DIRS: [(i8, i8); 4] = [(1, 0), (-1, 0), (0, 1), (0, -1)];

pub const KNIGHT_DELTAS: [(i8, i8); 8] = [
    (2, 1),
    (2, -1),
    (-2, 1),
    (-2, -1),
    (1, 2),
    (1, -2),
    (-1, 2),
    (-1, -2),
];

pub const KING_DELTAS: [(i8, i8); 8] = [
    (1, 0),
    (-1, 0),
    (0, 1),
    (0, -1),
    (1, 1),
    (1, -1),
    (-1, 1),
    (-1, -1),
];

// ── What each piece generates ───────────────────────────────────────────────

/// The pieces a pawn of the given colour promotes to, in the order they are offered:
/// queen, rook, bishop, knight.
pub open spec fn promotion_pieces(white: bool) -> Seq<u8> {
    if white {
        seq![W_QUEEN, W_ROOK, W_BISHOP, W_KNIGHT]
    } else {
        seq![B_QUEEN, B_ROOK, B_BISHOP, B_KNIGHT]
    }
}

/// A pawn (white or black) reaching `to`: four promotions to pieces of its own colour on
/// the last rank, else one plain move.
pub open spec fn pawn_moves_to(from: u8, to: u8, promote: bool, white: bool) -> Seq<Move> {
    if promote {
        let p = promotion_pieces(white);
        seq![mk(from, to, p[0]), mk(from, to, p[1]), mk(from, to, p[2]), mk(from, to, p[3])]
    } else {
        seq![mk(from, to, 0)]
    }
}

/// Pawn pushes of the pawn on `sq` moving `dir` ranks (1 for white, -1 for black):
/// one step onto an empty square, and from the start rank a second step onto an empty
/// square.
pub open spec fn pawn_pushes(b: BoardView, sq: u8, dir: int, start_rank: int, promo_rank: int) -> Seq<
    Move,
> {
    match square_offset(sq, dir, 0) {
        None => Seq::empty(),
        Some(fwd) => if b.squares[fwd as int] == EMPTY {
            pawn_moves_to(sq, fwd, sq / 8 == promo_rank, dir == 1) + if sq / 8 == start_rank {
                match square_offset(sq, 2 * dir, 0) {
                    Some(fwd2) => if b.squares[fwd2 as int] == EMPTY {
                        seq![mk(sq, fwd2, 0)]
                    } else {
                        Seq::empty()
                    },
                    None => Seq::empty(),
                }
            } else {
                Seq::empty()
            }
        } else {
            Seq::empty()
        },
    }
}

/// The capture of the pawn on `sq` towards file offset `df`: onto an enemy piece or
/// onto the en-passant square.
pub open spec fn pawn_capture(b: BoardView, sq: u8, dir: int, df: int, promo_rank: int) -> Seq<Move> {
    match square_offset(sq, dir, df) {
        None => Seq::empty(),
        Some(cap) => {
            let target = b.squares[cap as int];
            let enemy = if dir == 1 { is_black(target) } else { is_white(target) };
            if enemy || (b.ep_sq != NO_EP && cap == b.ep_sq) {
                pawn_moves_to(sq, cap, sq / 8 == promo_rank, dir == 1)
            } else {
                Seq::empty()
            }
        },
    }
}

pub open spec fn white_pawn_moves(b: BoardView, sq: u8) -> Seq<Move> {
    pawn_pushes(b, sq, 1, 1, 6) + pawn_capture(b, sq, 1, -1, 6) + pawn_capture(b, sq, 1, 1, 6)
}

pub open spec fn black_pawn_moves(b: BoardView, sq: u8) -> Seq<Move> {
    pawn_pushes(b, sq, -1, 6, 1) + pawn_capture(b, sq, -1, -1, 1) + pawn_capture(b, sq, -1, 1, 1)
}

/// A single jump: onto an empty square or an opponent's piece.
pub open spec fn jump_to(b: BoardView, sq: u8, side: bool, d: (i8, i8)) -> Seq<Move> {
    match square_offset(sq, d.0 as int, d.1 as int) {
        None => Seq::empty(),
        Some(to) => if b.squares[to as int] == EMPTY || is_opponent_piece(b.squares[to as int], side) {
            seq![mk(sq, to, 0)]
        } else {
            Seq::empty()
        },
    }
}

/// Jumps in the order of the deltas.
pub open spec fn jump_moves(b: BoardView, sq: u8, side: bool, deltas: Seq<(i8, i8)>) -> Seq<Move>
    decreases deltas.len(),
{
    if deltas.len() == 0 {
        Seq::empty()
    } else {
        jump_moves(b, sq, side, deltas.drop_last()) + jump_to(b, sq, side, deltas.last())
    }
}

/// A direction of one step along a rank, a file or a diagonal.
pub open spec fn is_step(dr: int, df: int) -> bool {
    -1 <= dr <= 1 && -1 <= df <= 1 && (dr != 0 || df != 0)
}

/// How many steps in direction (dr, df) stay on the board from `cur`.
pub open spec fn room(cur: u8, dr: int, df: int) -> int {
    let r = (cur / 8) as int;
    let f = (cur % 8) as int;
    if dr == 1 {
        7 - r
    } else if dr == -1 {
        r
    } else if df == 1 {
        7 - f
    } else {
        f
    }
}

/// The slide of a piece standing on `from`, continuing past `cur` in direction (dr, df):
/// every empty square, then the first opponent piece, stopping before an own piece or
/// the edge.
pub open spec fn ray_moves(b: BoardView, from: u8, side: bool, dr: int, df: int, cur: u8) -> Seq<Move>
    decreases room(cur, dr, df),
    when is_step(dr, df) && cur < 64
{
    match square_offset(cur, dr, df) {
        None => Seq::empty(),
        Some(to) => {
            let p = b.squares[to as int];
            if is_own_piece(p, side) {
                Seq::empty()
            } else if is_opponent_piece(p, side) {
                seq![mk(from, to, 0)]
            } else {
                seq![mk(from, to, 0)] + ray_moves(b, from, side, dr, df, to)
            }
        },
    }
}

/// Slides along each direction in turn.
pub open spec fn slider_moves(b: BoardView, sq: u8, side: bool, dirs: Seq<(i8, i8)>) -> Seq<Move>
    decreases dirs.len(),
{
    if dirs.len() == 0 {
        Seq::empty()
    } else {
        slider_moves(b, sq, side, dirs.drop_last()) + ray_moves(
            b,
            sq,
            side,
            dirs.last().0 as int,
            dirs.last().1 as int,
            sq,
        )
    }
}

/// The moves with which the piece on `sq` attacks when `side` owns it: its generated
/// moves without castling (a castling move never captures).
pub open spec fn piece_attacks(b: BoardView, sq: u8, side: bool) -> Seq<Move> {
    let p = b.squares[sq as int];
    if p == EMPTY || !is_own_piece(p, side) {
        Seq::empty()
    } else if p == W_PAWN {
        white_pawn_moves(b, sq)
    } else if p == B_PAWN {
        black_pawn_moves(b, sq)
    } else if p == W_KNIGHT || p == B_KNIGHT {
        jump_moves(b, sq, side, KNIGHT_DELTAS@)
    } else if p == W_BISHOP || p == B_BISHOP {
        slider_moves(b, sq, side, BISHOP_DIRS@)
    } else if p == W_ROOK || p == B_ROOK {
        slider_moves(b, sq, side, ROOK_DIRS@)
    } else if p == W_QUEEN || p == B_QUEEN {
        slider_moves(b, sq, side, BISHOP_DIRS@) + slider_moves(b, sq, side, ROOK_DIRS@)
    } else if p == W_KING || p == B_KING {
        jump_moves(b, sq, side, KING_DELTAS@)
    } else {
        Seq::empty()
    }
}

/// The attacking moves of `side`'s pieces on the first `n` squares, square by square.
pub open spec fn attacks_of_squares(b: BoardView, side: bool, n: int) -> Seq<Move>
    decreases n,
{
    if n <= 0 {
        Seq::empty()
    } else {
        attacks_of_squares(b, side, n - 1) + piece_attacks(b, (n - 1) as u8, side)
    }
}

/// Some piece of `by` attacks `sq`: one of its moves other than castling ends there.
pub open spec fn attacked(b: BoardView, by: bool, sq: int) -> bool {
    exists|j: int|
        0 <= j < attacks_of_squares(b, by, 64).len() && #[trigger] attacks_of_squares(b, by, 64)[j].to_sq() == sq
}

/// Castling moves of the king on `sq`: the right must be held, the squares between king
/// and rook empty, and neither the king's square nor the square it crosses attacked by
/// the opponent (the square it lands on is examined with every other move).
pub open spec fn castling_moves(b: BoardView, sq: u8, side: bool) -> Seq<Move> {
    let s = b.squares;
    let white = if side == WHITE && sq == 4 {
        (if b.castling & 1 != 0 && s[5] == EMPTY && s[6] == EMPTY && !attacked(b, !side, 4) && !attacked(
            b,
            !side,
            5,
        ) {
            seq![mk(4, 6, 0)]
        } else {
            Seq::empty()
        }) + (if b.castling & 2 != 0 && s[3] == EMPTY && s[2] == EMPTY && s[1] == EMPTY && !attacked(b, !side, 4)
            && !attacked(b, !side, 3) {
            seq![mk(4, 2, 0)]
        } else {
            Seq::empty()
        })
    } else {
        Seq::empty()
    };
    let black = if side != WHITE && sq == 60 {
        (if b.castling & 4 != 0 && s[61] == EMPTY && s[62] == EMPTY && !attacked(b, !side, 60) && !attacked(
            b,
            !side,
            61,
        ) {
            seq![mk(60, 62, 0)]
        } else {
            Seq::empty()
        }) + (if b.castling & 8 != 0 && s[59] == EMPTY && s[58] == EMPTY && s[57] == EMPTY && !attacked(
            b,
            !side,
            60,
        ) && !attacked(b, !side, 59) {
            seq![mk(60, 58, 0)]
        } else {
            Seq::empty()
        })
    } else {
        Seq::empty()
    };
    white + black
}

/// The moves generated for the piece on `sq` when `side` is to move.
pub open spec fn piece_moves(b: BoardView, sq: u8, side: bool) -> Seq<Move> {
    let p = b.squares[sq as int];
    if p == EMPTY || !is_own_piece(p, side) {
        Seq::empty()
    } else if p == W_PAWN {
        white_pawn_moves(b, sq)
    } else if p == B_PAWN {
        black_pawn_moves(b, sq)
    } else if p == W_KNIGHT || p == B_KNIGHT {
        jump_moves(b, sq, side, KNIGHT_DELTAS@)
    } else if p == W_BISHOP || p == B_BISHOP {
        slider_moves(b, sq, side, BISHOP_DIRS@)
    } else if p == W_ROOK || p == B_ROOK {
        slider_moves(b, sq, side, ROOK_DIRS@)
    } else if p == W_QUEEN || p == B_QUEEN {
        slider_moves(b, sq, side, BISHOP_DIRS@) + slider_moves(b, sq, side, ROOK_DIRS@)
    } else if p == W_KING || p == B_KING {
        jump_moves(b, sq, side, KING_DELTAS@) + castling_moves(b, sq, side)
    } else {
        Seq::empty()
    }
}

/// The moves of the pieces on the first `n` squares, square by square.
pub open spec fn moves_of_squares(b: BoardView, side: bool, n: int) -> Seq<Move>
    decreases n,
{
    if n <= 0 {
        Seq::empty()
    } else {
        moves_of_squares(b, side, n - 1) + piece_moves(b, (n - 1) as u8, side)
    }
}

/// All pseudo-legal moves for `side`, in generation order.
pub open spec fn pseudo_legal_moves(b: BoardView, side: bool) -> Seq<Move> {
    moves_of_squares(b, side, 64)
}

// ── Executable generation ───────────────────────────────────────────────────

fn rank(sq: u8) -> (r: u8)
    ensures
        r == sq / 8,
{
    sq / 8
}

fn file(sq: u8) -> (f: u8)
    ensures
        f == sq % 8,
{
    sq % 8
}

fn add_sq(sq: u8, dr: i8, df: i8) -> (res: Option<u8>)
    requires
        sq < 64,
        -2 <= dr <= 2,
        -2 <= df <= 2,
    ensures
        res == square_offset(sq, dr as int, df as int),
        res matches Some(t) ==> t < 64,
{
    let r = rank(sq) as i8 + dr;
    let f = file(sq) as i8 + df;
    if r < 0 || r > 7 || f < 0 || f > 7 {
        None
    } else {
        Some((r * 8 + f) as u8)
    }
}

fn push_pawn(from: u8, to: u8, promote: bool, white: bool, moves: &mut Vec<Move>)
    ensures
        final(moves)@ == old(moves)@ + pawn_moves_to(from, to, promote, white),
{
    if promote {
        let promos = if white {
            [W_QUEEN, W_ROOK, W_BISHOP, W_KNIGHT]
        } else {
            [B_QUEEN, B_ROOK, B_BISHOP, B_KNIGHT]
        };
        let ghost start = old(moves)@;
        for i in 0..4usize
            invariant
                promos@ == promotion_pieces(white),
                moves@ == start + pawn_moves_to(from, to, true, white).take(i as int),
        {
            moves.push(Move::new(from, to, promos[i]));
            assert(pawn_moves_to(from, to, true, white).take(i + 1) =~= pawn_moves_to(from, to, true, white).take(
                i as int,
            ).push(mk(from, to, promos@[i as int])));
        }
        assert(pawn_moves_to(from, to, true, white).take(4) =~= pawn_moves_to(from, to, true, white));
    } else {
        moves.push(Move::new(from, to, 0));
        assert(moves@ =~= old(moves)@ + pawn_moves_to(from, to, promote, white));
    }
}

fn gen_wpawn(board: &Board, sq: u8, moves: &mut Vec<Move>)
    requires
        sq < 64,
    ensures
        final(moves)@ == old(moves)@ + white_pawn_moves(board@, sq),
{
    let ghost b = board@;
    let ghost start = old(moves)@;
    let r = rank(sq);
    if let Some(fwd) = add_sq(sq, 1, 0) {
        if board.piece_at(fwd) == EMPTY {
            push_pawn(sq, fwd, r == 6, true, moves);
            if r == 1 {
                if let Some(fwd2) = add_sq(sq, 2, 0) {
                    if board.piece_at(fwd2) == EMPTY {
                        moves.push(Move::new(sq, fwd2, 0));
                    }
                }
            }
        }
    }
    assert(moves@ =~= start + pawn_pushes(b, sq, 1, 1, 6));
    let dfs = [-1i8, 1];
    for i in 0..2usize
        invariant
            sq < 64,
            r == sq / 8,
            b == board@,
            dfs@ == seq![-1i8, 1],
            moves@ == start + pawn_pushes(b, sq, 1, 1, 6) + (if i >= 1 {
                pawn_capture(b, sq, 1, -1, 6)
            } else {
                Seq::empty()
            }) + (if i >= 2 {
                pawn_capture(b, sq, 1, 1, 6)
            } else {
                Seq::empty()
            }),
    {
        let df = dfs[i];
        let ghost before = moves@;
        if let Some(cap) = add_sq(sq, 1, df) {
            if Board::is_black_piece(board.piece_at(cap)) || (board.ep_sq != NO_EP && cap == board.ep_sq) {
                push_pawn(sq, cap, r == 6, true, moves);
            }
        }
        assert(moves@ =~= before + pawn_capture(b, sq, 1, df as int, 6));
    }
    assert(moves@ =~= start + white_pawn_moves(b, sq));
}

fn gen_bpawn(board: &Board, sq: u8, moves: &mut Vec<Move>)
    requires
        sq < 64,
    ensures
        final(moves)@ == old(moves)@ + black_pawn_moves(board@, sq),
{
    let ghost b = board@;
    let ghost start = old(moves)@;
    let r = rank(sq);
    if let Some(fwd) = add_sq(sq, -1, 0) {
        if board.piece_at(fwd) == EMPTY {
            push_pawn(sq, fwd, r == 1, false, moves);
            if r == 6 {
                if let Some(fwd2) = add_sq(sq, -2, 0) {
                    if board.piece_at(fwd2) == EMPTY {
                        moves.push(Move::new(sq, fwd2, 0));
                    }
                }
            }
        }
    }
    assert(moves@ =~= start + pawn_pushes(b, sq, -1, 6, 1));
    let dfs = [-1i8, 1];
    for i in 0..2usize
        invariant
            sq < 64,
            r == sq / 8,
            b == board@,
            dfs@ == seq![-1i8, 1],
            moves@ == start + pawn_pushes(b, sq, -1, 6, 1) + (if i >= 1 {
                pawn_capture(b, sq, -1, -1, 1)
            } else {
                Seq::empty()
            }) + (if i >= 2 {
                pawn_capture(b, sq, -1, 1, 1)
            } else {
                Seq::empty()
            }),
    {
        let df = dfs[i];
        let ghost before = moves@;
        if let Some(cap) = add_sq(sq, -1, df) {
            if Board::is_white_piece(board.piece_at(cap)) || (board.ep_sq != NO_EP && cap == board.ep_sq) {
                push_pawn(sq, cap, r == 1, false, moves);
            }
        }
        assert(moves@ =~= before + pawn_capture(b, sq, -1, df as int, 1));
    }
    assert(moves@ =~= start + black_pawn_moves(b, sq));
}

/// Every delta moves at most two ranks and two files.
pub open spec fn short_deltas(deltas: Seq<(i8, i8)>) -> bool {
    forall|i: int| 0 <= i < deltas.len() ==> -2 <= #[trigger] deltas[i].0 <= 2 && -2 <= deltas[i].1 <= 2
}

/// Every direction is a single step.
pub open spec fn step_dirs(dirs: Seq<(i8, i8)>) -> bool {
    forall|i: int| 0 <= i < dirs.len() ==> is_step(#[trigger] dirs[i].0 as int, dirs[i].1 as int)
}

fn gen_jump(board: &Board, sq: u8, side: bool, deltas: &[(i8, i8)], moves: &mut Vec<Move>)
    requires
        sq < 64,
        short_deltas(deltas@),
    ensures
        final(moves)@ == old(moves)@ + jump_moves(board@, sq, side, deltas@),
{
    let ghost b = board@;
    let ghost start = old(moves)@;
    for i in 0..deltas.len()
        invariant
            sq < 64,
            b == board@,
            short_deltas(deltas@),
            moves@ == start + jump_moves(b, sq, side, deltas@.take(i as int)),
    {
        let (dr, df) = deltas[i];
        let ghost before = moves@;
        if let Some(to) = add_sq(sq, dr, df) {
            let p = board.piece_at(to);
            if p == EMPTY || Board::is_opponent(p, side) {
                moves.push(Move::new(sq, to, 0));
            }
        }
        assert(deltas@.take(i + 1).drop_last() =~= deltas@.take(i as int));
        assert(moves@ =~= start + jump_moves(b, sq, side, deltas@.take(i + 1)));
    }
    assert(deltas@.take(deltas@.len() as int) =~= deltas@);
}

fn gen_slider(board: &Board, sq: u8, side: bool, dirs: &[(i8, i8)], moves: &mut Vec<Move>)
    requires
        sq < 64,
        step_dirs(dirs@),
    ensures
        final(moves)@ == old(moves)@ + slider_moves(board@, sq, side, dirs@),
{
    let ghost b = board@;
    let ghost start = old(moves)@;
    for i in 0..dirs.len()
        invariant
            sq < 64,
            b == board@,
            step_dirs(dirs@),
            moves@ == start + slider_moves(b, sq, side, dirs@.take(i as int)),
    {
        let (dr, df) = dirs[i];
        assert(is_step(dirs@[i as int].0 as int, dirs@[i as int].1 as int));
        let ghost before = moves@;
        let mut cur = sq;
        loop
            invariant_except_break
                cur < 64,
                is_step(dr as int, df as int),
                b == board@,
                moves@ + ray_moves(b, sq, side, dr as int, df as int, cur) == before + ray_moves(
                    b,
                    sq,
                    side,
                    dr as int,
                    df as int,
                    sq,
                ),
            ensures
                moves@ == before + ray_moves(b, sq, side, dr as int, df as int, sq),
            decreases room(cur, dr as int, df as int),
        {
            match add_sq(cur, dr, df) {
                None => {
                    assert(moves@ =~= moves@ + ray_moves(b, sq, side, dr as int, df as int, cur));
                    break;
                },
                Some(to) => {
                    let p = board.piece_at(to);
                    if Board::is_own(p, side) {
                        assert(moves@ =~= moves@ + ray_moves(b, sq, side, dr as int, df as int, cur));
                        break;
                    }
                    let ghost m0 = moves@;
                    moves.push(Move::new(sq, to, 0));
                    if Board::is_opponent(p, side) {
                        assert(moves@ =~= m0 + ray_moves(b, sq, side, dr as int, df as int, cur));
                        break;
                    }
                    assert(m0 + ray_moves(b, sq, side, dr as int, df as int, cur) =~= moves@
                        + ray_moves(b, sq, side, dr as int, df as int, to));
                    cur = to;
                },
            }
        }
        assert(dirs@.take(i + 1).drop_last() =~= dirs@.take(i as int));
        assert(moves@ =~= start + slider_moves(b, sq, side, dirs@.take(i + 1)));
    }
    assert(dirs@.take(dirs@.len() as int) =~= dirs@);
}

fn gen_castling(board: &Board, sq: u8, side: bool, moves: &mut Vec<Move>)
    ensures
        final(moves)@ == old(moves)@ + castling_moves(board@, sq, side),
{
    let ghost start = old(moves)@;
    if side == WHITE && sq == 4 {
        if board.castling & 1 != 0 && board.piece_at(5) == EMPTY && board.piece_at(6) == EMPTY
            && !square_attacked(board, !side, 4) && !square_attacked(board, !side, 5) {
            moves.push(Move::new(4, 6, 0));
        }
        if board.castling & 2 != 0 && board.piece_at(3) == EMPTY && board.piece_at(2) == EMPTY
            && board.piece_at(1) == EMPTY && !square_attacked(board, !side, 4) && !square_attacked(board, !side, 3) {
            moves.push(Move::new(4, 2, 0));
        }
    }
    if side != WHITE && sq == 60 {
        if board.castling & 4 != 0 && board.piece_at(61) == EMPTY && board.piece_at(62) == EMPTY
            && !square_attacked(board, !side, 60) && !square_attacked(board, !side, 61) {
            moves.push(Move::new(60, 62, 0));
        }
        if board.castling & 8 != 0 && board.piece_at(59) == EMPTY && board.piece_at(58) == EMPTY
            && board.piece_at(57) == EMPTY && !square_attacked(board, !side, 60) && !square_attacked(board, !side, 59) {
            moves.push(Move::new(60, 58, 0));
        }
    }
    assert(moves@ =~= start + castling_moves(board@, sq, side));
}

/// The attacking moves of `side`: its pseudo-legal moves without castling.
fn generate_attacks(board: &Board, side: bool) -> (moves: Vec<Move>)
    ensures
        moves@ == attacks_of_squares(board@, side, 64),
{
    proof {
        lemma_tables();
    }
    let ghost b = board@;
    let mut moves = Vec::new();
    for sq in 0u8..64
        invariant
            b == board@,
            short_deltas(KNIGHT_DELTAS@),
            short_deltas(KING_DELTAS@),
            step_dirs(BISHOP_DIRS@),
            step_dirs(ROOK_DIRS@),
            moves@ == attacks_of_squares(b, side, sq as int),
    {
        let piece = board.piece_at(sq);
        if piece != EMPTY && Board::is_own(piece, side) {
            if piece == W_PAWN {
                gen_wpawn(board, sq, &mut moves);
            } else if piece == B_PAWN {
                gen_bpawn(board, sq, &mut moves);
            } else if piece == W_KNIGHT || piece == B_KNIGHT {
                gen_jump(board, sq, side, &KNIGHT_DELTAS, &mut moves);
            } else if piece == W_BISHOP || piece == B_BISHOP {
                gen_slider(board, sq, side, &BISHOP_DIRS, &mut moves);
            } else if piece == W_ROOK || piece == B_ROOK {
                gen_slider(board, sq, side, &ROOK_DIRS, &mut moves);
            } else if piece == W_QUEEN || piece == B_QUEEN {
                gen_slider(board, sq, side, &BISHOP_DIRS, &mut moves);
                gen_slider(board, sq, side, &ROOK_DIRS, &mut moves);
            } else if piece == W_KING || piece == B_KING {
                gen_jump(board, sq, side, &KING_DELTAS, &mut moves);
            }
        }
        assert(moves@ =~= attacks_of_squares(b, side, sq + 1));
    }
    moves
}

/// Whether some piece of `by` attacks `sq`.
fn square_attacked(board: &Board, by: bool, sq: u8) -> (r: bool)
    ensures
        r == attacked(board@, by, sq as int),
{
    let moves = generate_attacks(board, by);
    let mut i = 0usize;
    while i < moves.len()
        invariant
            i <= moves.len(),
            moves@ == attacks_of_squares(board@, by, 64),
            forall|j: int| 0 <= j < i ==> (#[trigger] moves@[j]).to_sq() != sq,
        decreases moves.len() - i,
    {
        if moves[i].to_sq() == sq {
            assert(moves@[i as int].to_sq() == sq);
            return true;
        }
        i = i + 1;
    }
    false
}

/// The direction and delta tables are single steps and short jumps.
proof fn lemma_tables()
    ensures
        short_deltas(KNIGHT_DELTAS@),
        short_deltas(KING_DELTAS@),
        step_dirs(BISHOP_DIRS@),
        step_dirs(ROOK_DIRS@),
{
    assert(short_deltas(KNIGHT_DELTAS@));
    assert(short_deltas(KING_DELTAS@));
    assert(step_dirs(BISHOP_DIRS@));
    assert(step_dirs(ROOK_DIRS@));
}

/// All pseudo-legal moves for `side` (they may leave the own king in check).
pub fn generate_pseudo_legal(board: &Board, side: bool) -> (moves: Vec<Move>)
    ensures
        moves@ == pseudo_legal_moves(board@, side),
{
    proof {
        lemma_tables();
    }
    let ghost b = board@;
    let mut moves = Vec::new();
    for sq in 0u8..64
        invariant
            b == board@,
            short_deltas(KNIGHT_DELTAS@),
            short_deltas(KING_DELTAS@),
            step_dirs(BISHOP_DIRS@),
            step_dirs(ROOK_DIRS@),
            moves@ == moves_of_squares(b, side, sq as int),
    {
        let ghost before = moves@;
        let piece = board.piece_at(sq);
        if piece != EMPTY && Board::is_own(piece, side) {
            if piece == W_PAWN {
                gen_wpawn(board, sq, &mut moves);
            } else if piece == B_PAWN {
                gen_bpawn(board, sq, &mut moves);
            } else if piece == W_KNIGHT || piece == B_KNIGHT {
                gen_jump(board, sq, side, &KNIGHT_DELTAS, &mut moves);
            } else if piece == W_BISHOP || piece == B_BISHOP {
                gen_slider(board, sq, side, &BISHOP_DIRS, &mut moves);
            } else if piece == W_ROOK || piece == B_ROOK {
                gen_slider(board, sq, side, &ROOK_DIRS, &mut moves);
            } else if piece == W_QUEEN || piece == B_QUEEN {
                gen_slider(board, sq, side, &BISHOP_DIRS, &mut moves);
                gen_slider(board, sq, side, &ROOK_DIRS, &mut moves);
            } else if piece == W_KING || piece == B_KING {
                gen_jump(board, sq, side, &KING_DELTAS, &mut moves);
                gen_castling(board, sq, side, &mut moves);
            }
        }
        assert(moves@ =~= moves_of_squares(b, side, sq + 1));
    }
    moves
}

// ── Shape of generated moves ────────────────────────────────────────────────

/// Every move starts on `sq` and ends on a square in `lo..hi`.
pub open spec fn all_from(s: Seq<Move>, sq: u8, lo: int, hi: int) -> bool {
    forall|j: int| #![trigger s[j]] 0 <= j < s.len() ==> s[j].from_sq() == sq && lo <= s[j].to_sq() < hi
}

proof fn lemma_all_from_add(a: Seq<Move>, b: Seq<Move>, sq: u8, lo: int, hi: int)
    requires
        all_from(a, sq, lo, hi),
        all_from(b, sq, lo, hi),
    ensures
        all_from(a + b, sq, lo, hi),
{
    assert forall|j: int| 0 <= j < (a + b).len() implies (a + b)[j].from_sq() == sq && lo <= (a
        + b)[j].to_sq() < hi by {
        if j < a.len() {
            assert((a + b)[j] == a[j]);
            assert(a[j].from_sq() == sq && lo <= a[j].to_sq() < hi);
        } else {
            assert((a + b)[j] == b[j - a.len()]);
            assert(b[j - a.len()].from_sq() == sq && lo <= b[j - a.len()].to_sq() < hi);
        }
    }
}

proof fn lemma_all_from_widen(s: Seq<Move>, sq: u8, lo: int, hi: int, lo2: int, hi2: int)
    requires
        all_from(s, sq, lo, hi),
        lo2 <= lo,
        hi <= hi2,
    ensures
        all_from(s, sq, lo2, hi2),
{
    assert forall|j: int| 0 <= j < s.len() implies s[j].from_sq() == sq && lo2 <= s[j].to_sq()
        < hi2 by {
        assert(s[j].from_sq() == sq && lo <= s[j].to_sq() < hi);
    }
}

proof fn lemma_offset(sq: u8, dr: int, df: int)
    requires
        sq < 64,
    ensures
        square_offset(sq, dr, df) matches Some(t) ==> t < 64 && t / 8 == sq / 8 + dr && t % 8 == sq % 8
            + df,
{
}

proof fn lemma_mk(from: u8, to: u8, promo: u8)
    requires
        from < 64,
        to < 64,
        promo < 16,
    ensures
        mk(from, to, promo).from_sq() == from,
        mk(from, to, promo).to_sq() == to,
        mk(from, to, promo).promo() == promo,
{
    lemma_move_fields(from, to, promo);
}

proof fn lemma_pawn_moves_to_shape(from: u8, to: u8, promote: bool, white: bool)
    requires
        from < 64,
        to < 64,
    ensures
        all_from(pawn_moves_to(from, to, promote, white), from, to as int, to + 1),
{
    lemma_mk(from, to, 0);
    lemma_mk(from, to, W_QUEEN);
    lemma_mk(from, to, W_ROOK);
    lemma_mk(from, to, W_BISHOP);
    lemma_mk(from, to, W_KNIGHT);
    lemma_mk(from, to, B_QUEEN);
    lemma_mk(from, to, B_ROOK);
    lemma_mk(from, to, B_BISHOP);
    lemma_mk(from, to, B_KNIGHT);
}

proof fn lemma_pawn_shape(b: BoardView, sq: u8, dir: int, start_rank: int, promo_rank: int, lo: int, hi: int)
    requires
        sq < 64,
        dir == 1 || dir == -1,
        b.squares.len() == 64,
        0 <= lo <= hi <= 64,
        forall|dr: int, df: int|
            (dr == dir || dr == 2 * dir) && -1 <= df <= 1 ==> (#[trigger] square_offset(sq, dr, df) matches Some(
                t,
            ) ==> lo <= t < hi),
    ensures
        all_from(pawn_pushes(b, sq, dir, start_rank, promo_rank), sq, lo, hi),
        all_from(pawn_capture(b, sq, dir, -1, promo_rank), sq, lo, hi),
        all_from(pawn_capture(b, sq, dir, 1, promo_rank), sq, lo, hi),
{
    lemma_offset(sq, dir, 0);
    lemma_offset(sq, 2 * dir, 0);
    lemma_offset(sq, dir, -1);
    lemma_offset(sq, dir, 1);
    assert(square_offset(sq, dir, 0) matches Some(t) ==> lo <= t < hi);
    assert(square_offset(sq, 2 * dir, 0) matches Some(t) ==> lo <= t < hi);
    assert(square_offset(sq, dir, -1) matches Some(t) ==> lo <= t < hi);
    assert(square_offset(sq, dir, 1) matches Some(t) ==> lo <= t < hi);
    if let Some(fwd) = square_offset(sq, dir, 0) {
        lemma_pawn_moves_to_shape(sq, fwd, sq / 8 == promo_rank, dir == 1);
        if let Some(fwd2) = square_offset(sq, 2 * dir, 0) {
            lemma_mk(sq, fwd2, 0);
        }
        let tail = if sq / 8 == start_rank {
            match square_offset(sq, 2 * dir, 0) {
                Some(fwd2) => if b.squares[fwd2 as int] == EMPTY {
                    seq![mk(sq, fwd2, 0)]
                } else {
                    Seq::empty()
                },
                None => Seq::empty(),
            }
        } else {
            Seq::empty()
        };
        assert(all_from(tail, sq, lo, hi));
        lemma_all_from_widen(pawn_moves_to(sq, fwd, sq / 8 == promo_rank, dir == 1), sq, fwd as int, fwd + 1, lo, hi);
        lemma_all_from_add(pawn_moves_to(sq, fwd, sq / 8 == promo_rank, dir == 1), tail, sq, lo, hi);
    }
    if let Some(cap) = square_offset(sq, dir, -1) {
        lemma_pawn_moves_to_shape(sq, cap, sq / 8 == promo_rank, dir == 1);
        lemma_all_from_widen(pawn_moves_to(sq, cap, sq / 8 == promo_rank, dir == 1), sq, cap as int, cap + 1, lo, hi);
    }
    if let Some(cap) = square_offset(sq, dir, 1) {
        lemma_pawn_moves_to_shape(sq, cap, sq / 8 == promo_rank, dir == 1);
        lemma_all_from_widen(pawn_moves_to(sq, cap, sq / 8 == promo_rank, dir == 1), sq, cap as int, cap + 1, lo, hi);
    }
}

proof fn lemma_jump_shape(b: BoardView, sq: u8, side: bool, deltas: Seq<(i8, i8)>)
    requires
        sq < 64,
    ensures
        all_from(jump_moves(b, sq, side, deltas), sq, 0, 64),
    decreases deltas.len(),
{
    if deltas.len() > 0 {
        lemma_jump_shape(b, sq, side, deltas.drop_last());
        let d = deltas.last();
        lemma_offset(sq, d.0 as int, d.1 as int);
        if let Some(to) = square_offset(sq, d.0 as int, d.1 as int) {
            lemma_mk(sq, to, 0);
        }
        lemma_all_from_add(
            jump_moves(b, sq, side, deltas.drop_last()),
            jump_to(b, sq, side, d),
            sq,
            0,
            64,
        );
    }
}

proof fn lemma_ray_shape(b: BoardView, from: u8, side: bool, dr: int, df: int, cur: u8)
    requires
        from < 64,
        cur < 64,
        is_step(dr, df),
    ensures
        all_from(ray_moves(b, from, side, dr, df, cur), from, 0, 64),
    decreases room(cur, dr, df),
{
    lemma_offset(cur, dr, df);
    if let Some(to) = square_offset(cur, dr, df) {
        lemma_mk(from, to, 0);
        lemma_ray_shape(b, from, side, dr, df, to);
        lemma_all_from_add(seq![mk(from, to, 0)], ray_moves(b, from, side, dr, df, to), from, 0, 64);
    }
}

proof fn lemma_slider_shape(b: BoardView, sq: u8, side: bool, dirs: Seq<(i8, i8)>)
    requires
        sq < 64,
        step_dirs(dirs),
    ensures
        all_from(slider_moves(b, sq, side, dirs), sq, 0, 64),
    decreases dirs.len(),
{
    if dirs.len() > 0 {
        assert(step_dirs(dirs.drop_last()));
        lemma_slider_shape(b, sq, side, dirs.drop_last());
        let d = dirs.last();
        assert(is_step(dirs[dirs.len() - 1].0 as int, dirs[dirs.len() - 1].1 as int));
        lemma_ray_shape(b, sq, side, d.0 as int, d.1 as int, sq);
        lemma_all_from_add(
            slider_moves(b, sq, side, dirs.drop_last()),
            ray_moves(b, sq, side, d.0 as int, d.1 as int, sq),
            sq,
            0,
            64,
        );
    }
}

proof fn lemma_castling_shape(b: BoardView, sq: u8, side: bool)
    ensures
        all_from(castling_moves(b, sq, side), sq, 0, 64),
{
    lemma_mk(4, 6, 0);
    lemma_mk(4, 2, 0);
    lemma_mk(60, 62, 0);
    lemma_mk(60, 58, 0);
}

/// The moves generated for a piece start on its square; a white pawn's end above the first
/// rank and a black pawn's below the last.
pub proof fn lemma_piece_moves_shape(b: BoardView, sq: u8, side: bool)
    requires
        sq < 64,
        b.squares.len() == 64,
    ensures
        all_from(piece_moves(b, sq, side), sq, 0, 64),
        b.squares[sq as int] == W_PAWN ==> all_from(piece_moves(b, sq, side), sq, 8, 64),
        b.squares[sq as int] == B_PAWN ==> all_from(piece_moves(b, sq, side), sq, 0, 56),
{
    let p = b.squares[sq as int];
    lemma_tables();
    assert forall|dr: int, df: int|
        (dr == 1 || dr == 2) && -1 <= df <= 1 implies (#[trigger] square_offset(sq, dr, df) matches Some(t)
        ==> 8 <= t < 64) by {
        lemma_offset(sq, dr, df);
    }
    assert forall|dr: int, df: int|
        (dr == -1 || dr == -2) && -1 <= df <= 1 implies (#[trigger] square_offset(sq, dr, df) matches Some(t)
        ==> 0 <= t < 56) by {
        lemma_offset(sq, dr, df);
    }
    lemma_pawn_shape(b, sq, 1, 1, 6, 8, 64);
    lemma_pawn_shape(b, sq, -1, 6, 1, 0, 56);
    lemma_all_from_add(pawn_pushes(b, sq, 1, 1, 6), pawn_capture(b, sq, 1, -1, 6), sq, 8, 64);
    lemma_all_from_add(
        pawn_pushes(b, sq, 1, 1, 6) + pawn_capture(b, sq, 1, -1, 6),
        pawn_capture(b, sq, 1, 1, 6),
        sq,
        8,
        64,
    );
    lemma_all_from_add(pawn_pushes(b, sq, -1, 6, 1), pawn_capture(b, sq, -1, -1, 1), sq, 0, 56);
    lemma_all_from_add(
        pawn_pushes(b, sq, -1, 6, 1) + pawn_capture(b, sq, -1, -1, 1),
        pawn_capture(b, sq, -1, 1, 1),
        sq,
        0,
        56,
    );
    lemma_jump_shape(b, sq, side, KNIGHT_DELTAS@);
    lemma_jump_shape(b, sq, side, KING_DELTAS@);
    lemma_slider_shape(b, sq, side, BISHOP_DIRS@);
    lemma_slider_shape(b, sq, side, ROOK_DIRS@);
    lemma_castling_shape(b, sq, side);
    lemma_all_from_add(
        slider_moves(b, sq, side, BISHOP_DIRS@),
        slider_moves(b, sq, side, ROOK_DIRS@),
        sq,
        0,
        64,
    );
    lemma_all_from_add(jump_moves(b, sq, side, KING_DELTAS@), castling_moves(b, sq, side), sq, 0, 64);
}

/// Every move of the sequence can be applied to the board.
pub open spec fn all_applicable(b: BoardView, s: Seq<Move>) -> bool {
    forall|j: int| #![trigger s[j]] 0 <= j < s.len() ==> move_applicable(b, s[j])
}

proof fn lemma_piece_moves_applicable(b: BoardView, sq: u8)
    requires
        sq < 64,
        b.squares.len() == 64,
    ensures
        all_applicable(b, piece_moves(b, sq, b.side)),
{
    lemma_piece_moves_shape(b, sq, b.side);
    let s = piece_moves(b, sq, b.side);
    assert forall|j: int| 0 <= j < s.len() implies move_applicable(b, #[trigger] s[j]) by {
        assert(s[j].from_sq() == sq);
        lemma_move_ranges(s[j]);
    }
}

/// Every pseudo-legal move of the side to move can be applied to the board.
pub proof fn lemma_pseudo_legal_applicable(b: BoardView, n: int)
    requires
        0 <= n <= 64,
        b.squares.len() == 64,
    ensures
        all_applicable(b, moves_of_squares(b, b.side, n)),
    decreases n,
{
    if n > 0 {
        lemma_pseudo_legal_applicable(b, n - 1);
        lemma_piece_moves_applicable(b, (n - 1) as u8);
        let a = moves_of_squares(b, b.side, n - 1);
        let c = piece_moves(b, (n - 1) as u8, b.side);
        assert forall|j: int| 0 <= j < (a + c).len() implies move_applicable(b, #[trigger] (a + c)[j]) by {
            if j < a.len() {
                assert((a + c)[j] == a[j]);
            } else {
                assert((a + c)[j] == c[j - a.len()]);
            }
        }
    }
}

// ── Check and legality ──────────────────────────────────────────────────────

pub open spec fn king_of(side: bool) -> u8 {
    if side == WHITE {
        W_KING
    } else {
        B_KING
    }
}

/// The first square at or after `i` that holds `piece`, or 64 if there is none.
pub open spec fn first_square_of(s: Seq<u8>, piece: u8, i: int) -> int
    decreases 64 - i,
{
    if i >= 64 {
        64
    } else if s[i] == piece {
        i
    } else {
        first_square_of(s, piece, i + 1)
    }
}

/// Some pseudo-legal move of `side` ends on `sq`.
pub open spec fn attacks(b: BoardView, side: bool, sq: int) -> bool {
    exists|j: int|
        0 <= j < pseudo_legal_moves(b, side).len() && #[trigger] pseudo_legal_moves(b, side)[j].to_sq()
            == sq
}

/// `side`'s king (the first one on the board) is attacked by an opponent pseudo-legal move;
/// a side without a king is never in check.
pub open spec fn in_check_spec(b: BoardView, side: bool) -> bool {
    let k = first_square_of(b.squares, king_of(side), 0);
    k < 64 && attacks(b, !side, k)
}

/// The move does not leave the mover's king in check.
pub open spec fn keeps_king_safe(b: BoardView, mv: Move) -> bool {
    !in_check_spec(apply_move_spec(b, mv), b.side)
}

/// The legal moves of the side to move: the pseudo-legal ones that keep its king safe,
/// in generation order.
pub open spec fn legal_moves(b: BoardView) -> Seq<Move> {
    pseudo_legal_moves(b, b.side).filter(|mv: Move| keeps_king_safe(b, mv))
}

/// All legal moves for the side to move.
pub fn generate_legal(board: &Board) -> (legal: Vec<Move>)
    ensures
        legal@ == legal_moves(board@),
{
    let pseudo = generate_pseudo_legal(board, board.side);
    proof {
        lemma_pseudo_legal_applicable(board@, 64);
    }
    let ghost b = board@;
    let ghost pred = |mv: Move| keeps_king_safe(b, mv);
    let mut legal = Vec::new();
    for i in 0..pseudo.len()
        invariant
            b == board@,
            pred == (|mv: Move| keeps_king_safe(b, mv)),
            pseudo@ == pseudo_legal_moves(b, b.side),
            all_applicable(b, pseudo@),
            legal@ == pseudo@.take(i as int).filter(pred),
    {
        reveal_with_fuel(Seq::filter, 1);
        let mv = pseudo[i];
        assert(move_applicable(b, pseudo@[i as int]));
        let next = board.apply_move(mv);
        if !next.in_check(board.side) {
            legal.push(mv);
        }
        assert(pseudo@.take(i + 1).drop_last() =~= pseudo@.take(i as int));
    }
    assert(pseudo@.take(pseudo@.len() as int) =~= pseudo@);
    legal
}

/// Every pseudo-legal move of `side` starts on a square holding one of `side`'s pieces.
pub proof fn lemma_pseudo_legal_from_own_piece(b: BoardView, side: bool, n: int)
    requires
        0 <= n <= 64,
        b.squares.len() == 64,
    ensures
        forall|j: int|
            0 <= j < moves_of_squares(b, side, n).len() ==> is_own_piece(
                b.squares[#[trigger] moves_of_squares(b, side, n)[j].from_sq() as int],
                side,
            ) && moves_of_squares(b, side, n)[j].from_sq() < n,
    decreases n,
{
    if n > 0 {
        lemma_pseudo_legal_from_own_piece(b, side, n - 1);
        let sq = (n - 1) as u8;
        lemma_piece_moves_shape(b, sq, side);
        let a = moves_of_squares(b, side, n - 1);
        let c = piece_moves(b, sq, side);
        assert forall|j: int| 0 <= j < (a + c).len() implies is_own_piece(
            b.squares[#[trigger] (a + c)[j].from_sq() as int],
            side,
        ) && (a + c)[j].from_sq() < n by {
            if j < a.len() {
                assert((a + c)[j] == a[j]);
            } else {
                assert((a + c)[j] == c[j - a.len()]);
                assert(c[j - a.len()].from_sq() == sq);
                let p = b.squares[sq as int];
                assert(c.len() > 0);
                assert(p != EMPTY && is_own_piece(p, side));
            }
        }
    }
}

// ── What a generated move looks like ────────────────────────────────────────

/// No en-passant square points at a piece.
pub open spec fn ep_target_empty(b: BoardView) -> bool {
    b.ep_sq >= 64 || b.squares[b.ep_sq as int] == EMPTY
}

/// A generated move of `side` leaves its square, promotes only as a pawn of `side`
/// reaching its last rank, and (when the en-passant square is empty or off the board)
/// does not land on a piece of `side`.
pub open spec fn move_shaped(b: BoardView, side: bool, m: Move) -> bool {
    &&& m.from_sq() != m.to_sq()
    &&& m.promo() != 0 ==> (side == WHITE && b.squares[m.from_sq() as int] == W_PAWN && m.to_sq() / 8 == 7)
        || (side != WHITE && b.squares[m.from_sq() as int] == B_PAWN && m.to_sq() / 8 == 0)
    &&& ep_target_empty(b) ==> !is_own_piece(b.squares[m.to_sq() as int], side)
}

pub open spec fn all_shaped(b: BoardView, side: bool, s: Seq<Move>) -> bool {
    forall|j: int| 0 <= j < s.len() ==> move_shaped(b, side, #[trigger] s[j])
}

proof fn lemma_all_shaped_add(b: BoardView, side: bool, x: Seq<Move>, y: Seq<Move>)
    requires
        all_shaped(b, side, x),
        all_shaped(b, side, y),
    ensures
        all_shaped(b, side, x + y),
{
    assert forall|j: int| 0 <= j < (x + y).len() implies move_shaped(b, side, #[trigger] (x + y)[j]) by {
        if j < x.len() {
            assert((x + y)[j] == x[j]);
        } else {
            assert((x + y)[j] == y[j - x.len()]);
        }
    }
}

/// A quiet move (no promotion) from `from` to a different square not holding a piece of
/// `side` is shaped.
proof fn lemma_plain_shaped(b: BoardView, side: bool, from: u8, to: u8)
    requires
        from < 64,
        to < 64,
        from != to,
        b.squares.len() == 64,
        !is_own_piece(b.squares[to as int], side),
    ensures
        all_shaped(b, side, seq![mk(from, to, 0)]),
{
    lemma_mk(from, to, 0);
    assert(seq![mk(from, to, 0)][0] == mk(from, to, 0));
}

/// The pawn moves onto `to`, one rank ahead, are shaped when `to` holds no piece of `side`.
proof fn lemma_pawn_target_shaped(b: BoardView, sq: u8, side: bool, dir: int, promo_rank: int, to: u8)
    requires
        sq < 64,
        to < 64,
        b.squares.len() == 64,
        to / 8 == sq / 8 + dir,
        dir == 1 ==> side == WHITE && b.squares[sq as int] == W_PAWN && promo_rank == 6,
        dir == -1 ==> side != WHITE && b.squares[sq as int] == B_PAWN && promo_rank == 1,
        dir == 1 || dir == -1,
        ep_target_empty(b) ==> !is_own_piece(b.squares[to as int], side),
    ensures
        all_shaped(b, side, pawn_moves_to(sq, to, sq / 8 == promo_rank, dir == 1)),
{
    lemma_mk(sq, to, 0);
    lemma_mk(sq, to, W_QUEEN);
    lemma_mk(sq, to, W_ROOK);
    lemma_mk(sq, to, W_BISHOP);
    lemma_mk(sq, to, W_KNIGHT);
    lemma_mk(sq, to, B_QUEEN);
    lemma_mk(sq, to, B_ROOK);
    lemma_mk(sq, to, B_BISHOP);
    lemma_mk(sq, to, B_KNIGHT);
    let ms = pawn_moves_to(sq, to, sq / 8 == promo_rank, dir == 1);
    assert forall|j: int| 0 <= j < ms.len() implies move_shaped(b, side, #[trigger] ms[j]) by {
        assert(ms[j].from_sq() == sq && ms[j].to_sq() == to);
    }
}

proof fn lemma_pawn_shaped(b: BoardView, sq: u8, side: bool, dir: int, start_rank: int, promo_rank: int)
    requires
        sq < 64,
        b.squares.len() == 64,
        dir == 1 ==> side == WHITE && b.squares[sq as int] == W_PAWN && promo_rank == 6,
        dir == -1 ==> side != WHITE && b.squares[sq as int] == B_PAWN && promo_rank == 1,
        dir == 1 || dir == -1,
    ensures
        all_shaped(b, side, pawn_pushes(b, sq, dir, start_rank, promo_rank)),
        all_shaped(b, side, pawn_capture(b, sq, dir, -1, promo_rank)),
        all_shaped(b, side, pawn_capture(b, sq, dir, 1, promo_rank)),
{
    lemma_offset(sq, dir, 0);
    lemma_offset(sq, 2 * dir, 0);
    lemma_offset(sq, dir, -1);
    lemma_offset(sq, dir, 1);
    if let Some(fwd) = square_offset(sq, dir, 0) {
        if b.squares[fwd as int] == EMPTY {
            let first = pawn_moves_to(sq, fwd, sq / 8 == promo_rank, dir == 1);
            lemma_pawn_target_shaped(b, sq, side, dir, promo_rank, fwd);
            let tail = if sq / 8 == start_rank {
                match square_offset(sq, 2 * dir, 0) {
                    Some(fwd2) => if b.squares[fwd2 as int] == EMPTY {
                        seq![mk(sq, fwd2, 0)]
                    } else {
                        Seq::empty()
                    },
                    None => Seq::empty(),
                }
            } else {
                Seq::empty()
            };
            if let Some(fwd2) = square_offset(sq, 2 * dir, 0) {
                if b.squares[fwd2 as int] == EMPTY {
                    lemma_plain_shaped(b, side, sq, fwd2);
                }
            }
            assert(all_shaped(b, side, tail));
            lemma_all_shaped_add(b, side, first, tail);
        }
    }
    if let Some(cap) = square_offset(sq, dir, -1) {
        let target = b.squares[cap as int];
        let enemy = if dir == 1 { is_black(target) } else { is_white(target) };
        if enemy || (b.ep_sq != NO_EP && cap == b.ep_sq) {
            lemma_pawn_target_shaped(b, sq, side, dir, promo_rank, cap);
        }
    }
    if let Some(cap) = square_offset(sq, dir, 1) {
        let target = b.squares[cap as int];
        let enemy = if dir == 1 { is_black(target) } else { is_white(target) };
        if enemy || (b.ep_sq != NO_EP && cap == b.ep_sq) {
            lemma_pawn_target_shaped(b, sq, side, dir, promo_rank, cap);
        }
    }
}

proof fn lemma_jump_shaped(b: BoardView, sq: u8, side: bool, deltas: Seq<(i8, i8)>)
    requires
        sq < 64,
        b.squares.len() == 64,
        forall|i: int| 0 <= i < deltas.len() ==> (#[trigger] deltas[i]).0 != 0 || deltas[i].1 != 0,
    ensures
        all_shaped(b, side, jump_moves(b, sq, side, deltas)),
    decreases deltas.len(),
{
    if deltas.len() > 0 {
        lemma_jump_shaped(b, sq, side, deltas.drop_last());
        let d = deltas.last();
        assert(d == deltas[deltas.len() - 1]);
        lemma_offset(sq, d.0 as int, d.1 as int);
        if let Some(to) = square_offset(sq, d.0 as int, d.1 as int) {
            if b.squares[to as int] == EMPTY || is_opponent_piece(b.squares[to as int], side) {
                lemma_plain_shaped(b, side, sq, to);
            }
        }
        lemma_all_shaped_add(b, side, jump_moves(b, sq, side, deltas.drop_last()), jump_to(b, sq, side, d));
    }
}

/// `cur` lies from `from` in direction (dr, df), possibly on it.
pub open spec fn on_ray(from: u8, cur: u8, dr: int, df: int) -> bool {
    &&& (dr == 0 ==> cur / 8 == from / 8)
    &&& (dr == 1 ==> cur / 8 >= from / 8)
    &&& (dr == -1 ==> cur / 8 <= from / 8)
    &&& (df == 0 ==> cur % 8 == from % 8)
    &&& (df == 1 ==> cur % 8 >= from % 8)
    &&& (df == -1 ==> cur % 8 <= from % 8)
}

proof fn lemma_ray_shaped(b: BoardView, from: u8, side: bool, dr: int, df: int, cur: u8)
    requires
        from < 64,
        cur < 64,
        is_step(dr, df),
        on_ray(from, cur, dr, df),
        b.squares.len() == 64,
    ensures
        all_shaped(b, side, ray_moves(b, from, side, dr, df, cur)),
    decreases room(cur, dr, df),
{
    lemma_offset(cur, dr, df);
    if let Some(to) = square_offset(cur, dr, df) {
        assert(to != from);
        if !is_own_piece(b.squares[to as int], side) {
            lemma_plain_shaped(b, side, from, to);
            if !is_opponent_piece(b.squares[to as int], side) {
                lemma_ray_shaped(b, from, side, dr, df, to);
                lemma_all_shaped_add(b, side, seq![mk(from, to, 0)], ray_moves(b, from, side, dr, df, to));
            }
        }
    }
}

proof fn lemma_slider_shaped(b: BoardView, sq: u8, side: bool, dirs: Seq<(i8, i8)>)
    requires
        sq < 64,
        b.squares.len() == 64,
        step_dirs(dirs),
    ensures
        all_shaped(b, side, slider_moves(b, sq, side, dirs)),
    decreases dirs.len(),
{
    if dirs.len() > 0 {
        lemma_slider_shaped(b, sq, side, dirs.drop_last());
        let d = dirs.last();
        assert(d == dirs[dirs.len() - 1]);
        lemma_ray_shaped(b, sq, side, d.0 as int, d.1 as int, sq);
        lemma_all_shaped_add(
            b,
            side,
            slider_moves(b, sq, side, dirs.drop_last()),
            ray_moves(b, sq, side, d.0 as int, d.1 as int, sq),
        );
    }
}

proof fn lemma_castling_shaped(b: BoardView, sq: u8, side: bool)
    requires
        b.squares.len() == 64,
    ensures
        all_shaped(b, side, castling_moves(b, sq, side)),
{
    let s = b.squares;
    assert(!is_own_piece(EMPTY, side));
    let w1 = if b.castling & 1 != 0 && s[5] == EMPTY && s[6] == EMPTY && !attacked(b, !side, 4) && !attacked(b, !side, 5) {
        seq![mk(4, 6, 0)]
    } else {
        Seq::empty()
    };
    let w2 = if b.castling & 2 != 0 && s[3] == EMPTY && s[2] == EMPTY && s[1] == EMPTY && !attacked(b, !side, 4)
        && !attacked(b, !side, 3) {
        seq![mk(4, 2, 0)]
    } else {
        Seq::empty()
    };
    let b1 = if b.castling & 4 != 0 && s[61] == EMPTY && s[62] == EMPTY && !attacked(b, !side, 60) && !attacked(
        b,
        !side,
        61,
    ) {
        seq![mk(60, 62, 0)]
    } else {
        Seq::empty()
    };
    let b2 = if b.castling & 8 != 0 && s[59] == EMPTY && s[58] == EMPTY && s[57] == EMPTY && !attacked(b, !side, 60)
        && !attacked(b, !side, 59) {
        seq![mk(60, 58, 0)]
    } else {
        Seq::empty()
    };
    if s[6] == EMPTY {
        lemma_plain_shaped(b, side, 4, 6);
    }
    if s[2] == EMPTY {
        lemma_plain_shaped(b, side, 4, 2);
    }
    if s[62] == EMPTY {
        lemma_plain_shaped(b, side, 60, 62);
    }
    if s[58] == EMPTY {
        lemma_plain_shaped(b, side, 60, 58);
    }
    assert(all_shaped(b, side, w1) && all_shaped(b, side, w2));
    assert(all_shaped(b, side, b1) && all_shaped(b, side, b2));
    lemma_all_shaped_add(b, side, w1, w2);
    lemma_all_shaped_add(b, side, b1, b2);
    let white = if side == WHITE && sq == 4 { w1 + w2 } else { Seq::empty() };
    let black = if side != WHITE && sq == 60 { b1 + b2 } else { Seq::empty() };
    assert(all_shaped(b, side, white) && all_shaped(b, side, black));
    lemma_all_shaped_add(b, side, white, black);
    assert(castling_moves(b, sq, side) == white + black);
}

proof fn lemma_piece_moves_shaped(b: BoardView, sq: u8, side: bool)
    requires
        sq < 64,
        b.squares.len() == 64,
    ensures
        all_shaped(b, side, piece_moves(b, sq, side)),
{
    let p = b.squares[sq as int];
    lemma_tables();
    assert(forall|i: int| 0 <= i < KNIGHT_DELTAS@.len() ==> (#[trigger] KNIGHT_DELTAS@[i]).0 != 0 || KNIGHT_DELTAS@[i].1 != 0);
    assert(forall|i: int| 0 <= i < KING_DELTAS@.len() ==> (#[trigger] KING_DELTAS@[i]).0 != 0 || KING_DELTAS@[i].1 != 0);
    if p != EMPTY && is_own_piece(p, side) {
        if p == W_PAWN {
            lemma_pawn_shaped(b, sq, side, 1, 1, 6);
            lemma_all_shaped_add(b, side, pawn_pushes(b, sq, 1, 1, 6), pawn_capture(b, sq, 1, -1, 6));
            lemma_all_shaped_add(
                b,
                side,
                pawn_pushes(b, sq, 1, 1, 6) + pawn_capture(b, sq, 1, -1, 6),
                pawn_capture(b, sq, 1, 1, 6),
            );
        } else if p == B_PAWN {
            lemma_pawn_shaped(b, sq, side, -1, 6, 1);
            lemma_all_shaped_add(b, side, pawn_pushes(b, sq, -1, 6, 1), pawn_capture(b, sq, -1, -1, 1));
            lemma_all_shaped_add(
                b,
                side,
                pawn_pushes(b, sq, -1, 6, 1) + pawn_capture(b, sq, -1, -1, 1),
                pawn_capture(b, sq, -1, 1, 1),
            );
        } else {
            lemma_jump_shaped(b, sq, side, KNIGHT_DELTAS@);
            lemma_jump_shaped(b, sq, side, KING_DELTAS@);
            lemma_slider_shaped(b, sq, side, BISHOP_DIRS@);
            lemma_slider_shaped(b, sq, side, ROOK_DIRS@);
            lemma_castling_shaped(b, sq, side);
            lemma_all_shaped_add(b, side, slider_moves(b, sq, side, BISHOP_DIRS@), slider_moves(b, sq, side, ROOK_DIRS@));
            lemma_all_shaped_add(b, side, jump_moves(b, sq, side, KING_DELTAS@), castling_moves(b, sq, side));
        }
    }
}

proof fn lemma_moves_of_squares_shaped(b: BoardView, side: bool, n: int)
    requires
        0 <= n <= 64,
        b.squares.len() == 64,
    ensures
        all_shaped(b, side, moves_of_squares(b, side, n)),
    decreases n,
{
    if n > 0 {
        lemma_moves_of_squares_shaped(b, side, n - 1);
        lemma_piece_moves_shaped(b, (n - 1) as u8, side);
        lemma_all_shaped_add(b, side, moves_of_squares(b, side, n - 1), piece_moves(b, (n - 1) as u8, side));
    }
}

/// Every pseudo-legal move of `side` starts on a piece of `side` and leaves its square;
/// only a pawn of `side` reaching its last rank promotes; and when the en-passant square
/// is empty or off the board, no move lands on a piece of `side`.
pub proof fn lemma_pseudo_legal_moves_shaped(b: BoardView, side: bool)
    requires
        b.squares.len() == 64,
    ensures
        forall|j: int|
            0 <= j < pseudo_legal_moves(b, side).len() ==> is_own_piece(
                b.squares[#[trigger] pseudo_legal_moves(b, side)[j].from_sq() as int],
                side,
            ) && move_shaped(b, side, pseudo_legal_moves(b, side)[j]),
{
    lemma_moves_of_squares_shaped(b, side, 64);
    lemma_pseudo_legal_from_own_piece(b, side, 64);
}

// ── Order and uniqueness of generated moves ─────────────────────────────────

/// No move occurs twice.
pub open spec fn no_repeats(s: Seq<Move>) -> bool {
    forall|i: int, j: int| 0 <= i < j < s.len() ==> #[trigger] s[i] != #[trigger] s[j]
}

/// Every move satisfies `p`.
pub open spec fn all_satisfy(s: Seq<Move>, p: spec_fn(Move) -> bool) -> bool {
    forall|j: int| 0 <= j < s.len() ==> p(#[trigger] s[j])
}

proof fn lemma_no_repeats_add(x: Seq<Move>, y: Seq<Move>, px: spec_fn(Move) -> bool, py: spec_fn(Move) -> bool)
    requires
        no_repeats(x),
        no_repeats(y),
        all_satisfy(x, px),
        all_satisfy(y, py),
        forall|m: Move| !(#[trigger] px(m) && py(m)),
    ensures
        no_repeats(x + y),
        all_satisfy(x + y, |m: Move| px(m) || py(m)),
{
    let z = x + y;
    assert forall|i: int, j: int| 0 <= i < j < z.len() implies #[trigger] z[i] != #[trigger] z[j] by {
        if j < x.len() {
            assert(z[i] == x[i] && z[j] == x[j]);
        } else if i >= x.len() {
            assert(z[i] == y[i - x.len()] && z[j] == y[j - x.len()]);
        } else {
            assert(z[i] == x[i] && z[j] == y[j - x.len()]);
            assert(px(x[i]) && py(y[j - x.len()]));
        }
    }
    assert forall|j: int| 0 <= j < z.len() implies (|m: Move| px(m) || py(m))(#[trigger] z[j]) by {
        if j < x.len() {
            assert(z[j] == x[j] && px(x[j]));
        } else {
            assert(z[j] == y[j - x.len()] && py(y[j - x.len()]));
        }
    }
}

proof fn lemma_all_satisfy_weaken(s: Seq<Move>, p: spec_fn(Move) -> bool, q: spec_fn(Move) -> bool)
    requires
        all_satisfy(s, p),
        forall|m: Move| #[trigger] p(m) ==> q(m),
    ensures
        all_satisfy(s, q),
{
    assert forall|j: int| 0 <= j < s.len() implies q(#[trigger] s[j]) by {
        assert(p(s[j]));
    }
}


proof fn lemma_single_no_repeats(m: Move)
    ensures
        no_repeats(seq![m]),
{
}

proof fn lemma_pawn_moves_to_no_repeats(from: u8, to: u8, promote: bool, white: bool)
    requires
        from < 64,
        to < 64,
    ensures
        no_repeats(pawn_moves_to(from, to, promote, white)),
        all_satisfy(pawn_moves_to(from, to, promote, white), |m: Move| m.from_sq() == from && m.to_sq() == to),
{
    lemma_mk(from, to, 0);
    lemma_mk(from, to, W_QUEEN);
    lemma_mk(from, to, W_ROOK);
    lemma_mk(from, to, W_BISHOP);
    lemma_mk(from, to, W_KNIGHT);
    lemma_mk(from, to, B_QUEEN);
    lemma_mk(from, to, B_ROOK);
    lemma_mk(from, to, B_BISHOP);
    lemma_mk(from, to, B_KNIGHT);
    let ms = pawn_moves_to(from, to, promote, white);
    assert forall|i: int, j: int| 0 <= i < j < ms.len() implies #[trigger] ms[i] != #[trigger] ms[j] by {
        assert(ms[i].promo() != ms[j].promo());
    }
}

proof fn lemma_pawn_no_repeats(b: BoardView, sq: u8, dir: int, start_rank: int, promo_rank: int)
    requires
        sq < 64,
        dir == 1 || dir == -1,
    ensures
        no_repeats(pawn_pushes(b, sq, dir, start_rank, promo_rank)),
        all_satisfy(pawn_pushes(b, sq, dir, start_rank, promo_rank), |m: Move| m.to_sq() % 8 == sq % 8),
        no_repeats(pawn_capture(b, sq, dir, -1, promo_rank)),
        all_satisfy(pawn_capture(b, sq, dir, -1, promo_rank), |m: Move| m.to_sq() % 8 == sq % 8 - 1),
        no_repeats(pawn_capture(b, sq, dir, 1, promo_rank)),
        all_satisfy(pawn_capture(b, sq, dir, 1, promo_rank), |m: Move| m.to_sq() % 8 == sq % 8 + 1),
{
    lemma_offset(sq, dir, 0);
    lemma_offset(sq, 2 * dir, 0);
    lemma_offset(sq, dir, -1);
    lemma_offset(sq, dir, 1);
    if let Some(fwd) = square_offset(sq, dir, 0) {
        if b.squares[fwd as int] == EMPTY {
            let first = pawn_moves_to(sq, fwd, sq / 8 == promo_rank, dir == 1);
            lemma_pawn_moves_to_no_repeats(sq, fwd, sq / 8 == promo_rank, dir == 1);
            let tail = if sq / 8 == start_rank {
                match square_offset(sq, 2 * dir, 0) {
                    Some(fwd2) => if b.squares[fwd2 as int] == EMPTY {
                        seq![mk(sq, fwd2, 0)]
                    } else {
                        Seq::empty()
                    },
                    None => Seq::empty(),
                }
            } else {
                Seq::empty()
            };
            let pf = |m: Move| m.from_sq() == sq && m.to_sq() == fwd;
            let pt = |m: Move| m.to_sq() != fwd && m.to_sq() % 8 == sq % 8;
            if let Some(fwd2) = square_offset(sq, 2 * dir, 0) {
                lemma_mk(sq, fwd2, 0);
            }
            assert(all_satisfy(tail, pt));
            lemma_no_repeats_add(first, tail, pf, pt);
            lemma_all_satisfy_weaken(first + tail, |m: Move| pf(m) || pt(m), |m: Move| m.to_sq() % 8 == sq % 8);
        }
    }
    if let Some(cap) = square_offset(sq, dir, -1) {
        lemma_pawn_moves_to_no_repeats(sq, cap, sq / 8 == promo_rank, dir == 1);
        lemma_all_satisfy_weaken(
            pawn_moves_to(sq, cap, sq / 8 == promo_rank, dir == 1),
            |m: Move| m.from_sq() == sq && m.to_sq() == cap,
            |m: Move| m.to_sq() % 8 == sq % 8 - 1,
        );
    }
    if let Some(cap) = square_offset(sq, dir, 1) {
        lemma_pawn_moves_to_no_repeats(sq, cap, sq / 8 == promo_rank, dir == 1);
        lemma_all_satisfy_weaken(
            pawn_moves_to(sq, cap, sq / 8 == promo_rank, dir == 1),
            |m: Move| m.from_sq() == sq && m.to_sq() == cap,
            |m: Move| m.to_sq() % 8 == sq % 8 + 1,
        );
    }
}

proof fn lemma_pawn_moves_no_repeats(b: BoardView, sq: u8, dir: int, start_rank: int, promo_rank: int)
    requires
        sq < 64,
        dir == 1 || dir == -1,
    ensures
        no_repeats(
            pawn_pushes(b, sq, dir, start_rank, promo_rank) + pawn_capture(b, sq, dir, -1, promo_rank)
                + pawn_capture(b, sq, dir, 1, promo_rank),
        ),
{
    lemma_pawn_no_repeats(b, sq, dir, start_rank, promo_rank);
    let p0 = |m: Move| m.to_sq() % 8 == sq % 8;
    let p1 = |m: Move| m.to_sq() % 8 == sq % 8 - 1;
    let p2 = |m: Move| m.to_sq() % 8 == sq % 8 + 1;
    lemma_no_repeats_add(pawn_pushes(b, sq, dir, start_rank, promo_rank), pawn_capture(b, sq, dir, -1, promo_rank), p0, p1);
    lemma_no_repeats_add(
        pawn_pushes(b, sq, dir, start_rank, promo_rank) + pawn_capture(b, sq, dir, -1, promo_rank),
        pawn_capture(b, sq, dir, 1, promo_rank),
        |m: Move| p0(m) || p1(m),
        p2,
    );
}

/// The deltas are pairwise different.
pub open spec fn distinct_deltas(d: Seq<(i8, i8)>) -> bool {
    forall|i: int, j: int| 0 <= i < j < d.len() ==> #[trigger] d[i] != #[trigger] d[j]
}

/// The target of `m` is reached from `sq` by one of the first `n` deltas.
pub open spec fn reached_by(sq: u8, deltas: Seq<(i8, i8)>, n: int, m: Move) -> bool {
    exists|k: int| 0 <= k < n && square_offset(sq, (#[trigger] deltas[k]).0 as int, deltas[k].1 as int) == Some(m.to_sq())
}

proof fn lemma_jump_no_repeats(b: BoardView, sq: u8, side: bool, deltas: Seq<(i8, i8)>)
    requires
        sq < 64,
        distinct_deltas(deltas),
    ensures
        no_repeats(jump_moves(b, sq, side, deltas)),
        all_satisfy(jump_moves(b, sq, side, deltas), |m: Move| reached_by(sq, deltas, deltas.len() as int, m)),
    decreases deltas.len(),
{
    if deltas.len() > 0 {
        let n = deltas.len() - 1;
        let init = deltas.drop_last();
        lemma_jump_no_repeats(b, sq, side, init);
        let d = deltas.last();
        let x = jump_moves(b, sq, side, init);
        let y = jump_to(b, sq, side, d);
        let px = |m: Move| reached_by(sq, init, n, m);
        let py = |m: Move| square_offset(sq, d.0 as int, d.1 as int) == Some(m.to_sq());
        lemma_offset(sq, d.0 as int, d.1 as int);
        if let Some(to) = square_offset(sq, d.0 as int, d.1 as int) {
            lemma_mk(sq, to, 0);
        }
        assert(all_satisfy(y, py));
        assert forall|m: Move| !(#[trigger] px(m) && py(m)) by {
            if px(m) && py(m) {
                let k = choose|k: int|
                    0 <= k < n && square_offset(sq, (#[trigger] init[k]).0 as int, init[k].1 as int) == Some(m.to_sq());
                lemma_offset(sq, init[k].0 as int, init[k].1 as int);
                assert(init[k] == deltas[k]);
                assert(deltas[k] != deltas[n]);
            }
        }
        lemma_no_repeats_add(x, y, px, py);
        let pxy = |m: Move| px(m) || py(m);
        let q = |m: Move| reached_by(sq, deltas, deltas.len() as int, m);
        assert forall|m: Move| #[trigger] pxy(m) implies q(m) by {
            if px(m) {
                let k = choose|k: int|
                    0 <= k < n && square_offset(sq, (#[trigger] init[k]).0 as int, init[k].1 as int) == Some(m.to_sq());
                assert(init[k] == deltas[k]);
            } else {
                assert(deltas[n] == d);
            }
        }
        lemma_all_satisfy_weaken(x + y, pxy, q);
    }
}

/// `t` lies strictly beyond `cur` in direction (dr, df).
pub open spec fn beyond(cur: u8, t: u8, dr: int, df: int) -> bool {
    &&& (dr == 0 ==> t / 8 == cur / 8)
    &&& (dr == 1 ==> t / 8 > cur / 8)
    &&& (dr == -1 ==> t / 8 < cur / 8)
    &&& (df == 0 ==> t % 8 == cur % 8)
    &&& (df == 1 ==> t % 8 > cur % 8)
    &&& (df == -1 ==> t % 8 < cur % 8)
}

proof fn lemma_ray_no_repeats(b: BoardView, from: u8, side: bool, dr: int, df: int, cur: u8)
    requires
        from < 64,
        cur < 64,
        is_step(dr, df),
    ensures
        no_repeats(ray_moves(b, from, side, dr, df, cur)),
        all_satisfy(ray_moves(b, from, side, dr, df, cur), |m: Move| beyond(cur, m.to_sq(), dr, df)),
    decreases room(cur, dr, df),
{
    lemma_offset(cur, dr, df);
    if let Some(to) = square_offset(cur, dr, df) {
        lemma_mk(from, to, 0);
        let p = b.squares[to as int];
        if !is_own_piece(p, side) {
            if is_opponent_piece(p, side) {
                assert(all_satisfy(seq![mk(from, to, 0)], |m: Move| beyond(cur, m.to_sq(), dr, df)));
            } else {
                lemma_ray_no_repeats(b, from, side, dr, df, to);
                let x = seq![mk(from, to, 0)];
                let y = ray_moves(b, from, side, dr, df, to);
                let px = |m: Move| m.to_sq() == to;
                let py = |m: Move| beyond(to, m.to_sq(), dr, df);
                assert(all_satisfy(x, px));
                lemma_no_repeats_add(x, y, px, py);
                lemma_all_satisfy_weaken(x + y, |m: Move| px(m) || py(m), |m: Move| beyond(cur, m.to_sq(), dr, df));
            }
        }
    }
}

/// The target of `m` lies beyond `sq` in one of the first `n` directions.
pub open spec fn along_dirs(sq: u8, dirs: Seq<(i8, i8)>, n: int, m: Move) -> bool {
    exists|k: int| 0 <= k < n && beyond(sq, m.to_sq(), (#[trigger] dirs[k]).0 as int, dirs[k].1 as int)
}

proof fn lemma_slider_no_repeats(b: BoardView, sq: u8, side: bool, dirs: Seq<(i8, i8)>)
    requires
        sq < 64,
        step_dirs(dirs),
        distinct_deltas(dirs),
    ensures
        no_repeats(slider_moves(b, sq, side, dirs)),
        all_satisfy(slider_moves(b, sq, side, dirs), |m: Move| along_dirs(sq, dirs, dirs.len() as int, m)),
    decreases dirs.len(),
{
    if dirs.len() > 0 {
        let n = dirs.len() - 1;
        let init = dirs.drop_last();
        assert(step_dirs(init));
        lemma_slider_no_repeats(b, sq, side, init);
        let d = dirs.last();
        assert(d == dirs[n]);
        lemma_ray_no_repeats(b, sq, side, d.0 as int, d.1 as int, sq);
        let x = slider_moves(b, sq, side, init);
        let y = ray_moves(b, sq, side, d.0 as int, d.1 as int, sq);
        let px = |m: Move| along_dirs(sq, init, n, m);
        let py = |m: Move| beyond(sq, m.to_sq(), d.0 as int, d.1 as int);
        assert forall|m: Move| !(#[trigger] px(m) && py(m)) by {
            if px(m) && py(m) {
                let k = choose|k: int| 0 <= k < n && beyond(sq, m.to_sq(), (#[trigger] init[k]).0 as int, init[k].1 as int);
                assert(init[k] == dirs[k]);
                assert(is_step(dirs[k].0 as int, dirs[k].1 as int));
                assert(dirs[k] != dirs[n]);
            }
        }
        lemma_no_repeats_add(x, y, px, py);
        let pxy = |m: Move| px(m) || py(m);
        let q = |m: Move| along_dirs(sq, dirs, dirs.len() as int, m);
        assert forall|m: Move| #[trigger] pxy(m) implies q(m) by {
            if px(m) {
                let k = choose|k: int| 0 <= k < n && beyond(sq, m.to_sq(), (#[trigger] init[k]).0 as int, init[k].1 as int);
                assert(init[k] == dirs[k]);
            }
        }
        lemma_all_satisfy_weaken(x + y, pxy, q);
    }
}


proof fn lemma_castling_no_repeats(b: BoardView, sq: u8, side: bool)
    ensures
        no_repeats(castling_moves(b, sq, side)),
        all_satisfy(castling_moves(b, sq, side), |m: Move| m.to_sq() % 8 == sq % 8 + 2 || m.to_sq() % 8 + 2 == sq % 8),
{
    lemma_mk(4, 6, 0);
    lemma_mk(4, 2, 0);
    lemma_mk(60, 62, 0);
    lemma_mk(60, 58, 0);
    let c = castling_moves(b, sq, side);
    assert(c.len() <= 2);
    if c.len() == 2 {
        assert(c[0].to_sq() != c[1].to_sq());
    }
}

/// The move tables hold no direction or delta twice, and their shapes.
proof fn lemma_tables_distinct()
    ensures
        distinct_deltas(KNIGHT_DELTAS@),
        distinct_deltas(KING_DELTAS@),
        distinct_deltas(BISHOP_DIRS@),
        distinct_deltas(ROOK_DIRS@),
        forall|k: int| 0 <= k < 8 ==> -1 <= (#[trigger] KING_DELTAS@[k]).1 <= 1,
        forall|k: int| 0 <= k < 4 ==> (#[trigger] BISHOP_DIRS@[k]).0 != 0 && BISHOP_DIRS@[k].1 != 0,
        forall|k: int| 0 <= k < 4 ==> (#[trigger] ROOK_DIRS@[k]).0 == 0 || ROOK_DIRS@[k].1 == 0,
{
    assert(distinct_deltas(KNIGHT_DELTAS@));
    assert(distinct_deltas(KING_DELTAS@));
    assert(distinct_deltas(BISHOP_DIRS@));
    assert(distinct_deltas(ROOK_DIRS@));
}

proof fn lemma_piece_moves_no_repeats(b: BoardView, sq: u8, side: bool)
    requires
        sq < 64,
    ensures
        no_repeats(piece_moves(b, sq, side)),
{
    let p = b.squares[sq as int];
    lemma_tables();
    lemma_tables_distinct();
    if p == EMPTY || !is_own_piece(p, side) {
    } else if p == W_PAWN {
        lemma_pawn_moves_no_repeats(b, sq, 1, 1, 6);
    } else if p == B_PAWN {
        lemma_pawn_moves_no_repeats(b, sq, -1, 6, 1);
    } else if p == W_KNIGHT || p == B_KNIGHT {
        lemma_jump_no_repeats(b, sq, side, KNIGHT_DELTAS@);
    } else if p == W_BISHOP || p == B_BISHOP {
        lemma_slider_no_repeats(b, sq, side, BISHOP_DIRS@);
    } else if p == W_ROOK || p == B_ROOK {
        lemma_slider_no_repeats(b, sq, side, ROOK_DIRS@);
    } else if p == W_QUEEN || p == B_QUEEN {
        lemma_slider_no_repeats(b, sq, side, BISHOP_DIRS@);
        lemma_slider_no_repeats(b, sq, side, ROOK_DIRS@);
        let pb = |m: Move| along_dirs(sq, BISHOP_DIRS@, 4, m);
        let pr = |m: Move| along_dirs(sq, ROOK_DIRS@, 4, m);
        assert forall|m: Move| !(#[trigger] pb(m) && pr(m)) by {
            if pb(m) && pr(m) {
                let k1 = choose|k: int| 0 <= k < 4 && beyond(sq, m.to_sq(), (#[trigger] BISHOP_DIRS@[k]).0 as int, BISHOP_DIRS@[k].1 as int);
                let k2 = choose|k: int| 0 <= k < 4 && beyond(sq, m.to_sq(), (#[trigger] ROOK_DIRS@[k]).0 as int, ROOK_DIRS@[k].1 as int);
                assert(is_step(BISHOP_DIRS@[k1].0 as int, BISHOP_DIRS@[k1].1 as int));
                assert(is_step(ROOK_DIRS@[k2].0 as int, ROOK_DIRS@[k2].1 as int));
            }
        }
        lemma_no_repeats_add(slider_moves(b, sq, side, BISHOP_DIRS@), slider_moves(b, sq, side, ROOK_DIRS@), pb, pr);
    } else if p == W_KING || p == B_KING {
        lemma_jump_no_repeats(b, sq, side, KING_DELTAS@);
        lemma_castling_no_repeats(b, sq, side);
        let pk = |m: Move| reached_by(sq, KING_DELTAS@, 8, m);
        let pc = |m: Move| m.to_sq() % 8 == sq % 8 + 2 || m.to_sq() % 8 + 2 == sq % 8;
        assert forall|m: Move| !(#[trigger] pk(m) && pc(m)) by {
            if pk(m) && pc(m) {
                let k = choose|k: int|
                    0 <= k < 8 && square_offset(sq, (#[trigger] KING_DELTAS@[k]).0 as int, KING_DELTAS@[k].1 as int) == Some(m.to_sq());
                lemma_offset(sq, KING_DELTAS@[k].0 as int, KING_DELTAS@[k].1 as int);
            }
        }
        lemma_no_repeats_add(jump_moves(b, sq, side, KING_DELTAS@), castling_moves(b, sq, side), pk, pc);
    }
}

proof fn lemma_moves_of_squares_ordered(b: BoardView, side: bool, n: int)
    requires
        0 <= n <= 64,
        b.squares.len() == 64,
    ensures
        no_repeats(moves_of_squares(b, side, n)),
        forall|i: int, j: int|
            0 <= i < j < moves_of_squares(b, side, n).len() ==> (#[trigger] moves_of_squares(b, side, n)[i]).from_sq()
                <= (#[trigger] moves_of_squares(b, side, n)[j]).from_sq(),
    decreases n,
{
    if n > 0 {
        let sq = (n - 1) as u8;
        lemma_moves_of_squares_ordered(b, side, n - 1);
        lemma_pseudo_legal_from_own_piece(b, side, n - 1);
        lemma_piece_moves_shape(b, sq, side);
        lemma_piece_moves_no_repeats(b, sq, side);
        let x = moves_of_squares(b, side, n - 1);
        let y = piece_moves(b, sq, side);
        let px = |m: Move| m.from_sq() < n - 1;
        let py = |m: Move| m.from_sq() == sq;
        assert(all_satisfy(x, px));
        assert(all_satisfy(y, py));
        lemma_no_repeats_add(x, y, px, py);
        let z = x + y;
        assert(moves_of_squares(b, side, n) == z);
        assert forall|i: int, j: int| 0 <= i < j < z.len() implies (#[trigger] z[i]).from_sq() <= (#[trigger] z[j]).from_sq() by {
            if j < x.len() {
                assert(z[i] == x[i] && z[j] == x[j]);
            } else if i >= x.len() {
                assert(z[i] == y[i - x.len()] && z[j] == y[j - x.len()]);
                assert(py(y[i - x.len()]) && py(y[j - x.len()]));
            } else {
                assert(z[i] == x[i] && z[j] == y[j - x.len()]);
                assert(px(x[i]) && py(y[j - x.len()]));
            }
        }
    }
}

/// The pseudo-legal moves come grouped by origin square in ascending order, and no move
/// is listed twice.
pub proof fn lemma_pseudo_legal_moves_ordered(b: BoardView, side: bool)
    requires
        b.squares.len() == 64,
    ensures
        forall|i: int, j: int|
            0 <= i < j < pseudo_legal_moves(b, side).len() ==> (#[trigger] pseudo_legal_moves(b, side)[i]).from_sq()
                <= (#[trigger] pseudo_legal_moves(b, side)[j]).from_sq() && pseudo_legal_moves(b, side)[i]
                != pseudo_legal_moves(b, side)[j],
{
    lemma_moves_of_squares_ordered(b, side, 64);
}

/// A move of the first `n` squares' pieces is one of the moves of the piece it starts on.
proof fn lemma_move_of_its_square(b: BoardView, side: bool, n: int, m: Move)
    requires
        0 <= n <= 64,
        b.squares.len() == 64,
        moves_of_squares(b, side, n).contains(m),
    ensures
        m.from_sq() < 64,
        piece_moves(b, m.from_sq(), side).contains(m),
    decreases n,
{
    let x = moves_of_squares(b, side, n - 1);
    let y = piece_moves(b, (n - 1) as u8, side);
    let j = choose|j: int| 0 <= j < moves_of_squares(b, side, n).len() && moves_of_squares(b, side, n)[j] == m;
    assert(moves_of_squares(b, side, n) == x + y);
    if j < x.len() {
        assert(x[j] == m);
        lemma_move_of_its_square(b, side, n - 1, m);
    } else {
        assert(y[j - x.len()] == m);
        lemma_piece_moves_shape(b, (n - 1) as u8, side);
        assert(m.from_sq() == n - 1);
    }
}

/// Castling is never out of check, through an attacked square or through a piece: a
/// pseudo-legal king move of two files is one of the four castling moves, made with its
/// castling right, with every square between king and rook empty, and it starts on a
/// square and crosses a square that no piece of the opponent attacks.
pub proof fn lemma_castling_is_safe(b: BoardView, side: bool, m: Move)
    requires
        b.squares.len() == 64,
        pseudo_legal_moves(b, side).contains(m),
        b.squares[m.from_sq() as int] == W_KING || b.squares[m.from_sq() as int] == B_KING,
        m.to_sq() % 8 == m.from_sq() % 8 + 2 || m.to_sq() % 8 + 2 == m.from_sq() % 8,
    ensures
        !attacked(b, !side, m.from_sq() as int),
        !attacked(b, !side, (m.from_sq() + m.to_sq()) / 2),
        m.promo() == 0,
        (side == WHITE && m.from_sq() == 4 && m.to_sq() == 6 && b.castling & 1 != 0 && b.squares[5] == EMPTY
            && b.squares[6] == EMPTY) || (side == WHITE && m.from_sq() == 4 && m.to_sq() == 2 && b.castling & 2
            != 0 && b.squares[1] == EMPTY && b.squares[2] == EMPTY && b.squares[3] == EMPTY) || (side != WHITE
            && m.from_sq() == 60 && m.to_sq() == 62 && b.castling & 4 != 0 && b.squares[61] == EMPTY
            && b.squares[62] == EMPTY) || (side != WHITE && m.from_sq() == 60 && m.to_sq() == 58 && b.castling & 8
            != 0 && b.squares[57] == EMPTY && b.squares[58] == EMPTY && b.squares[59] == EMPTY),
{
    lemma_move_of_its_square(b, side, 64, m);
    let sq = m.from_sq();
    let ms = piece_moves(b, sq, side);
    let jumps = jump_moves(b, sq, side, KING_DELTAS@);
    let castles = castling_moves(b, sq, side);
    lemma_tables_distinct();
    lemma_jump_no_repeats(b, sq, side, KING_DELTAS@);
    let j = choose|j: int| 0 <= j < ms.len() && ms[j] == m;
    assert(ms == jumps + castles);
    if j < jumps.len() {
        assert(jumps[j] == m);
        let k = choose|k: int|
            0 <= k < 8 && square_offset(sq, (#[trigger] KING_DELTAS@[k]).0 as int, KING_DELTAS@[k].1 as int) == Some(m.to_sq());
        lemma_offset(sq, KING_DELTAS@[k].0 as int, KING_DELTAS@[k].1 as int);
    } else {
        assert(castles[j - jumps.len()] == m);
        lemma_mk(4, 6, 0);
        lemma_mk(4, 2, 0);
        lemma_mk(60, 62, 0);
        lemma_mk(60, 58, 0);
    }
}

/// What a pawn move of direction `dir` from `sq` to `t` with promotion `pr` looks like.
pub open spec fn pawn_move_ok(b: BoardView, sq: u8, dir: int, start_rank: int, t: int, pr: u8) -> bool {
    let dr = t / 8 - sq / 8;
    let df = t % 8 - sq % 8;
    let target = b.squares[t];
    let enemy = if dir == 1 { target >= B_PAWN } else { W_PAWN <= target <= W_KING };
    let last = if dir == 1 { 7int } else { 0int };
    &&& 0 <= t < 64
    &&& (df == 0 && dr == dir && target == EMPTY) || (df == 0 && dr == 2 * dir && sq / 8 == start_rank
        && b.squares[sq + 8 * dir] == EMPTY && target == EMPTY) || ((df == 1 || df == -1) && dr == dir && (enemy || (
    b.ep_sq != NO_EP && t == b.ep_sq)))
    &&& (pr != 0 <==> t / 8 == last)
    &&& pr != 0 ==> (if dir == 1 {
        pr == W_QUEEN || pr == W_ROOK || pr == W_BISHOP || pr == W_KNIGHT
    } else {
        pr == B_QUEEN || pr == B_ROOK || pr == B_BISHOP || pr == B_KNIGHT
    })
}

proof fn lemma_pawn_moves_to_ok(b: BoardView, sq: u8, dir: int, start_rank: int, promo_rank: int, to: u8, m: Move)
    requires
        sq < 64,
        to < 64,
        dir == 1 ==> promo_rank == 6,
        dir == -1 ==> promo_rank == 1,
        dir == 1 || dir == -1,
        to / 8 == sq / 8 + dir,
        pawn_moves_to(sq, to, sq / 8 == promo_rank, dir == 1).contains(m),
    ensures
        m.from_sq() == sq && m.to_sq() == to,
        m.promo() != 0 <==> to / 8 == (if dir == 1 { 7int } else { 0int }),
        m.promo() != 0 ==> (if dir == 1 {
            m.promo() == W_QUEEN || m.promo() == W_ROOK || m.promo() == W_BISHOP || m.promo() == W_KNIGHT
        } else {
            m.promo() == B_QUEEN || m.promo() == B_ROOK || m.promo() == B_BISHOP || m.promo() == B_KNIGHT
        }),
{
    lemma_mk(sq, to, 0);
    lemma_mk(sq, to, W_QUEEN);
    lemma_mk(sq, to, W_ROOK);
    lemma_mk(sq, to, W_BISHOP);
    lemma_mk(sq, to, W_KNIGHT);
    lemma_mk(sq, to, B_QUEEN);
    lemma_mk(sq, to, B_ROOK);
    lemma_mk(sq, to, B_BISHOP);
    lemma_mk(sq, to, B_KNIGHT);
    let ms = pawn_moves_to(sq, to, sq / 8 == promo_rank, dir == 1);
    let j = choose|j: int| 0 <= j < ms.len() && ms[j] == m;
    assert(ms[j] == m);
}

proof fn lemma_pawn_move_facts(b: BoardView, sq: u8, dir: int, start_rank: int, promo_rank: int, m: Move)
    requires
        sq < 64,
        b.squares.len() == 64,
        dir == 1 ==> promo_rank == 6 && start_rank == 1,
        dir == -1 ==> promo_rank == 1 && start_rank == 6,
        dir == 1 || dir == -1,
        (pawn_pushes(b, sq, dir, start_rank, promo_rank) + pawn_capture(b, sq, dir, -1, promo_rank) + pawn_capture(
            b,
            sq,
            dir,
            1,
            promo_rank,
        )).contains(m),
    ensures
        m.from_sq() == sq,
        pawn_move_ok(b, sq, dir, start_rank, m.to_sq() as int, m.promo()),
{
    lemma_offset(sq, dir, 0);
    lemma_offset(sq, 2 * dir, 0);
    lemma_offset(sq, dir, -1);
    lemma_offset(sq, dir, 1);
    let pu = pawn_pushes(b, sq, dir, start_rank, promo_rank);
    let cl = pawn_capture(b, sq, dir, -1, promo_rank);
    let cr = pawn_capture(b, sq, dir, 1, promo_rank);
    let all = pu + cl + cr;
    let j = choose|j: int| 0 <= j < all.len() && all[j] == m;
    if j < pu.len() {
        assert((pu + cl)[j] == pu[j]);
        assert(pu[j] == m);
        let fwd = square_offset(sq, dir, 0)->Some_0;
        let first = pawn_moves_to(sq, fwd, sq / 8 == promo_rank, dir == 1);
        let tail = if sq / 8 == start_rank {
            match square_offset(sq, 2 * dir, 0) {
                Some(fwd2) => if b.squares[fwd2 as int] == EMPTY {
                    seq![mk(sq, fwd2, 0)]
                } else {
                    Seq::empty()
                },
                None => Seq::empty(),
            }
        } else {
            Seq::empty()
        };
        assert(pu == first + tail);
        if j < first.len() {
            assert(first[j] == m);
            assert(first.contains(m));
            lemma_pawn_moves_to_ok(b, sq, dir, start_rank, promo_rank, fwd, m);
        } else {
            assert(tail[j - first.len()] == m);
            let fwd2 = square_offset(sq, 2 * dir, 0)->Some_0;
            lemma_mk(sq, fwd2, 0);
            assert(fwd == sq + 8 * dir);
        }
    } else if j < pu.len() + cl.len() {
        assert((pu + cl)[j] == cl[j - pu.len()]);
        assert(all[j] == (pu + cl)[j]);
        let cap = square_offset(sq, dir, -1)->Some_0;
        assert(cl[j - pu.len()] == m);
        assert(pawn_moves_to(sq, cap, sq / 8 == promo_rank, dir == 1).contains(m));
        lemma_pawn_moves_to_ok(b, sq, dir, start_rank, promo_rank, cap, m);
    } else {
        assert(cr[j - pu.len() - cl.len()] == m);
        let cap = square_offset(sq, dir, 1)->Some_0;
        assert(pawn_moves_to(sq, cap, sq / 8 == promo_rank, dir == 1).contains(m));
        lemma_pawn_moves_to_ok(b, sq, dir, start_rank, promo_rank, cap, m);
    }
}

/// Every pseudo-legal pawn move is one of a pawn's moves: one step forward onto an empty
/// square, two steps from the start rank over an empty square onto an empty square, or
/// one step diagonally forward onto an enemy piece or the en-passant square; it promotes
/// exactly when it reaches the last rank, and then to a queen, rook, bishop or knight of
/// the pawn's own colour.
pub proof fn lemma_pawn_moves_rule(b: BoardView, side: bool, m: Move)
    requires
        b.squares.len() == 64,
        pseudo_legal_moves(b, side).contains(m),
    ensures
        b.squares[m.from_sq() as int] == W_PAWN ==> side == WHITE && pawn_move_ok(
            b,
            m.from_sq(),
            1,
            1,
            m.to_sq() as int,
            m.promo(),
        ),
        b.squares[m.from_sq() as int] == B_PAWN ==> side != WHITE && pawn_move_ok(
            b,
            m.from_sq(),
            -1,
            6,
            m.to_sq() as int,
            m.promo(),
        ),
{
    lemma_move_of_its_square(b, side, 64, m);
    let sq = m.from_sq();
    let ms = piece_moves(b, sq, side);
    if b.squares[sq as int] == W_PAWN {
        assert(ms.len() > 0);
        lemma_pawn_move_facts(b, sq, 1, 1, 6, m);
    } else if b.squares[sq as int] == B_PAWN {
        assert(ms.len() > 0);
        lemma_pawn_move_facts(b, sq, -1, 6, 1, m);
    }
}

/// `t` lies on the line from `from` in direction (dr, df), strictly beyond `from`.
pub open spec fn on_line(from: u8, t: int, dr: int, df: int) -> bool {
    let rd = t / 8 - from / 8;
    let fd = t % 8 - from % 8;
    &&& 0 <= t < 64
    &&& (dr == 0 ==> rd == 0) && (dr == 1 ==> rd > 0) && (dr == -1 ==> rd < 0)
    &&& (df == 0 ==> fd == 0) && (df == 1 ==> fd > 0) && (df == -1 ==> fd < 0)
    &&& (dr != 0 && df != 0 ==> (rd == fd || rd == -fd))
}

/// Every square on the line from `from` strictly before `to` is empty.
pub open spec fn path_clear(b: BoardView, from: u8, to: int, dr: int, df: int) -> bool {
    forall|t: int|
        #![trigger b.squares[t]]
        on_line(from, t, dr, df) && (if dr == 1 {
            t / 8 < to / 8
        } else if dr == -1 {
            t / 8 > to / 8
        } else if df == 1 {
            t % 8 < to % 8
        } else {
            t % 8 > to % 8
        }) ==> b.squares[t] == EMPTY
}

proof fn lemma_ray_path(b: BoardView, from: u8, side: bool, dr: int, df: int, cur: u8, m: Move)
    requires
        from < 64,
        cur < 64,
        b.squares.len() == 64,
        is_step(dr, df),
        cur == from || on_line(from, cur as int, dr, df),
        path_clear(b, from, cur as int, dr, df),
        cur != from ==> b.squares[cur as int] == EMPTY,
        ray_moves(b, from, side, dr, df, cur).contains(m),
    ensures
        m.from_sq() == from,
        m.promo() == 0,
        on_line(from, m.to_sq() as int, dr, df),
        path_clear(b, from, m.to_sq() as int, dr, df),
        !is_own_piece(b.squares[m.to_sq() as int], side),
    decreases room(cur, dr, df),
{
    lemma_offset(cur, dr, df);
    let to = square_offset(cur, dr, df)->Some_0;
    lemma_mk(from, to, 0);
    let rest = ray_moves(b, from, side, dr, df, to);
    let first = seq![mk(from, to, 0)];
    let p = b.squares[to as int];
    assert(on_line(from, to as int, dr, df));
    assert(path_clear(b, from, to as int, dr, df)) by {
        assert forall|t: int|
            on_line(from, t, dr, df) && (if dr == 1 {
                t / 8 < to / 8
            } else if dr == -1 {
                t / 8 > to / 8
            } else if df == 1 {
                t % 8 < to % 8
            } else {
                t % 8 > to % 8
            }) implies #[trigger] b.squares[t] == EMPTY by {
            if t != cur {
                assert(t == 8 * (t / 8) + t % 8);
                assert(cur == 8 * (cur / 8) + cur % 8);
            }
        }
    }
    if !is_opponent_piece(p, side) && !is_own_piece(p, side) {
        let ms = first + rest;
        let j = choose|j: int| 0 <= j < ms.len() && ms[j] == m;
        if j > 0 {
            assert(rest[j - 1] == m);
            lemma_ray_path(b, from, side, dr, df, to, m);
        }
    }
}

proof fn lemma_slider_path(b: BoardView, sq: u8, side: bool, dirs: Seq<(i8, i8)>, m: Move)
    requires
        sq < 64,
        b.squares.len() == 64,
        step_dirs(dirs),
        slider_moves(b, sq, side, dirs).contains(m),
    ensures
        m.from_sq() == sq,
        m.promo() == 0,
        !is_own_piece(b.squares[m.to_sq() as int], side),
        exists|k: int|
            0 <= k < dirs.len() && on_line(sq, m.to_sq() as int, (#[trigger] dirs[k]).0 as int, dirs[k].1 as int)
                && path_clear(b, sq, m.to_sq() as int, dirs[k].0 as int, dirs[k].1 as int),
    decreases dirs.len(),
{
    let n = dirs.len() - 1;
    let init = dirs.drop_last();
    let d = dirs.last();
    assert(d == dirs[n]);
    let x = slider_moves(b, sq, side, init);
    let y = ray_moves(b, sq, side, d.0 as int, d.1 as int, sq);
    let j = choose|j: int| 0 <= j < (x + y).len() && (x + y)[j] == m;
    if j < x.len() {
        assert(x[j] == m);
        assert(step_dirs(init));
        lemma_slider_path(b, sq, side, init, m);
        let k = choose|k: int|
            0 <= k < init.len() && on_line(sq, m.to_sq() as int, (#[trigger] init[k]).0 as int, init[k].1 as int)
                && path_clear(b, sq, m.to_sq() as int, init[k].0 as int, init[k].1 as int);
        assert(init[k] == dirs[k]);
    } else {
        assert(y[j - x.len()] == m);
        assert(path_clear(b, sq, sq as int, d.0 as int, d.1 as int));
        lemma_ray_path(b, sq, side, d.0 as int, d.1 as int, sq, m);
    }
}

/// Every pseudo-legal move of a bishop, rook or queen runs along one of its lines
/// (diagonal for a bishop, rank or file for a rook, either for a queen) over empty squares
/// only; a knight's move changes rank and file by one and two or two and one; a king's
/// move other than castling changes each by at most one.
pub proof fn lemma_piece_geometry(b: BoardView, side: bool, m: Move)
    requires
        b.squares.len() == 64,
        pseudo_legal_moves(b, side).contains(m),
    ensures
        ({
            let p = b.squares[m.from_sq() as int];
            let from = m.from_sq();
            let to = m.to_sq() as int;
            let rd = to / 8 - from / 8;
            let fd = to % 8 - from % 8;
            &&& (p == W_BISHOP || p == B_BISHOP) ==> exists|dr: int, df: int|
                (dr == 1 || dr == -1) && (df == 1 || df == -1) && #[trigger] on_line(from, to, dr, df) && path_clear(
                    b,
                    from,
                    to,
                    dr,
                    df,
                )
            &&& (p == W_ROOK || p == B_ROOK) ==> exists|dr: int, df: int|
                (dr == 0 || df == 0) && is_step(dr, df) && #[trigger] on_line(from, to, dr, df) && path_clear(
                    b,
                    from,
                    to,
                    dr,
                    df,
                )
            &&& (p == W_QUEEN || p == B_QUEEN) ==> exists|dr: int, df: int|
                is_step(dr, df) && #[trigger] on_line(from, to, dr, df) && path_clear(b, from, to, dr, df)
            &&& (p == W_KNIGHT || p == B_KNIGHT) ==> ((rd == 1 || rd == -1) && (fd == 2 || fd == -2)) || ((rd == 2
                || rd == -2) && (fd == 1 || fd == -1))
            &&& (p == W_KING || p == B_KING) && fd != 2 && fd != -2 ==> -1 <= rd <= 1 && -1 <= fd <= 1
        }),
{
    lemma_move_of_its_square(b, side, 64, m);
    lemma_tables();
    lemma_tables_distinct();
    let sq = m.from_sq();
    let p = b.squares[sq as int];
    let ms = piece_moves(b, sq, side);
    assert(ms.len() > 0);
    assert(p != EMPTY && is_own_piece(p, side));
    assert(forall|k: int|
        0 <= k < 8 ==> (((#[trigger] KNIGHT_DELTAS@[k]).0 == 1 || KNIGHT_DELTAS@[k].0 == -1) && (KNIGHT_DELTAS@[k].1
            == 2 || KNIGHT_DELTAS@[k].1 == -2)) || ((KNIGHT_DELTAS@[k].0 == 2 || KNIGHT_DELTAS@[k].0 == -2) && (
        KNIGHT_DELTAS@[k].1 == 1 || KNIGHT_DELTAS@[k].1 == -1)));
    assert(forall|k: int|
        0 <= k < 8 ==> -1 <= (#[trigger] KING_DELTAS@[k]).0 <= 1 && -1 <= KING_DELTAS@[k].1 <= 1);
    if p == W_BISHOP || p == B_BISHOP {
        lemma_slider_path(b, sq, side, BISHOP_DIRS@, m);
        let k = choose|k: int|
            0 <= k < 4 && on_line(sq, m.to_sq() as int, (#[trigger] BISHOP_DIRS@[k]).0 as int, BISHOP_DIRS@[k].1 as int)
                && path_clear(b, sq, m.to_sq() as int, BISHOP_DIRS@[k].0 as int, BISHOP_DIRS@[k].1 as int);
        assert(is_step(BISHOP_DIRS@[k].0 as int, BISHOP_DIRS@[k].1 as int));
        assert(on_line(sq, m.to_sq() as int, BISHOP_DIRS@[k].0 as int, BISHOP_DIRS@[k].1 as int));
    } else if p == W_ROOK || p == B_ROOK {
        lemma_slider_path(b, sq, side, ROOK_DIRS@, m);
        let k = choose|k: int|
            0 <= k < 4 && on_line(sq, m.to_sq() as int, (#[trigger] ROOK_DIRS@[k]).0 as int, ROOK_DIRS@[k].1 as int)
                && path_clear(b, sq, m.to_sq() as int, ROOK_DIRS@[k].0 as int, ROOK_DIRS@[k].1 as int);
        assert(is_step(ROOK_DIRS@[k].0 as int, ROOK_DIRS@[k].1 as int));
        assert(on_line(sq, m.to_sq() as int, ROOK_DIRS@[k].0 as int, ROOK_DIRS@[k].1 as int));
    } else if p == W_QUEEN || p == B_QUEEN {
        let x = slider_moves(b, sq, side, BISHOP_DIRS@);
        let y = slider_moves(b, sq, side, ROOK_DIRS@);
        let j = choose|j: int| 0 <= j < (x + y).len() && (x + y)[j] == m;
        if j < x.len() {
            assert(x[j] == m);
            lemma_slider_path(b, sq, side, BISHOP_DIRS@, m);
            let k = choose|k: int|
                0 <= k < 4 && on_line(sq, m.to_sq() as int, (#[trigger] BISHOP_DIRS@[k]).0 as int, BISHOP_DIRS@[k].1 as int)
                    && path_clear(b, sq, m.to_sq() as int, BISHOP_DIRS@[k].0 as int, BISHOP_DIRS@[k].1 as int);
            assert(is_step(BISHOP_DIRS@[k].0 as int, BISHOP_DIRS@[k].1 as int));
            assert(on_line(sq, m.to_sq() as int, BISHOP_DIRS@[k].0 as int, BISHOP_DIRS@[k].1 as int));
        } else {
            assert(y[j - x.len()] == m);
            lemma_slider_path(b, sq, side, ROOK_DIRS@, m);
            let k = choose|k: int|
                0 <= k < 4 && on_line(sq, m.to_sq() as int, (#[trigger] ROOK_DIRS@[k]).0 as int, ROOK_DIRS@[k].1 as int)
                    && path_clear(b, sq, m.to_sq() as int, ROOK_DIRS@[k].0 as int, ROOK_DIRS@[k].1 as int);
            assert(is_step(ROOK_DIRS@[k].0 as int, ROOK_DIRS@[k].1 as int));
            assert(on_line(sq, m.to_sq() as int, ROOK_DIRS@[k].0 as int, ROOK_DIRS@[k].1 as int));
        }
    } else if p == W_KNIGHT || p == B_KNIGHT {
        lemma_jump_no_repeats(b, sq, side, KNIGHT_DELTAS@);
        let j = choose|j: int| 0 <= j < ms.len() && ms[j] == m;
        assert(ms[j] == m);
        let k = choose|k: int|
            0 <= k < 8 && square_offset(sq, (#[trigger] KNIGHT_DELTAS@[k]).0 as int, KNIGHT_DELTAS@[k].1 as int) == Some(m.to_sq());
        lemma_offset(sq, KNIGHT_DELTAS@[k].0 as int, KNIGHT_DELTAS@[k].1 as int);
    } else if p == W_KING || p == B_KING {
        lemma_jump_no_repeats(b, sq, side, KING_DELTAS@);
        lemma_castling_no_repeats(b, sq, side);
        let x = jump_moves(b, sq, side, KING_DELTAS@);
        let y = castling_moves(b, sq, side);
        let j = choose|j: int| 0 <= j < (x + y).len() && (x + y)[j] == m;
        if j < x.len() {
            assert(x[j] == m);
            let k = choose|k: int|
                0 <= k < 8 && square_offset(sq, (#[trigger] KING_DELTAS@[k]).0 as int, KING_DELTAS@[k].1 as int) == Some(m.to_sq());
            lemma_offset(sq, KING_DELTAS@[k].0 as int, KING_DELTAS@[k].1 as int);
        } else {
            assert(y[j - x.len()] == m);
        }
    }
}

/// Every legal move is a pseudo-legal move of the side to move that starts on one of its
/// pieces and does not leave its king in check.
pub proof fn lemma_legal_moves_are_safe(b: BoardView)
    requires
        b.squares.len() == 64,
    ensures
        forall|j: int|
            0 <= j < legal_moves(b).len() ==> {
                &&& pseudo_legal_moves(b, b.side).contains(#[trigger] legal_moves(b)[j])
                &&& keeps_king_safe(b, legal_moves(b)[j])
                &&& is_own_piece(b.squares[legal_moves(b)[j].from_sq() as int], b.side)
            },
{
    broadcast use vstd::seq_lib::group_filter_ensures;

    let pseudo = pseudo_legal_moves(b, b.side);
    let pred = |mv: Move| keeps_king_safe(b, mv);
    lemma_pseudo_legal_from_own_piece(b, b.side, 64);
    assert forall|j: int| 0 <= j < legal_moves(b).len() implies {
        &&& pseudo.contains(#[trigger] legal_moves(b)[j])
        &&& keeps_king_safe(b, legal_moves(b)[j])
        &&& is_own_piece(b.squares[legal_moves(b)[j].from_sq() as int], b.side)
    } by {
        let m = legal_moves(b)[j];
        assert(legal_moves(b).contains(m));
        pseudo.lemma_filter_contains_rev(pred, m);
        assert(pred(m));
        let k = choose|k: int| 0 <= k < pseudo.len() && pseudo[k] == m;
        assert(is_own_piece(b.squares[pseudo[k].from_sq() as int], b.side));
    }
}

} // verus!
