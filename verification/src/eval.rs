//! Position evaluation: material plus piece-square tables.
use vstd::prelude::*;

use crate::board::{is_white, start_position, Board, BoardView, WHITE, B_KING, B_PAWN, W_KING, W_PAWN};

verus! {

pub const VAL_PAWN: i32 = 100;
pub const VAL_KNIGHT: i32 = 320;
pub const VAL_BISHOP: i32 = 330;
pub const VAL_ROOK: i32 = 500;
pub const VAL_QUEEN: i32 = 900;
pub const VAL_KING: i32 = 20_000;

/// 12-element weight adjustment array indexed by (piece - 1) % 6.
/// Each entry is added to the material value of that piece kind, for both colours.
pub type WeightAdj = [i32; 12];

pub const NO_ADJ: WeightAdj = [0i32, 0, 0, 0, 0, 0, 0, 0, 0, 0, 0, 0];

/// Decode a weight stored in account storage: the stored value encodes a signed offset
/// in [-128, 127] as (offset + 128).
pub fn decode_weight(raw: u64) -> (w: i32)
    requires
        raw as i32 >= i32::MIN + 128,
    ensures
        w == raw as i32 - 128,
{
    raw as i32 - 128
}

/// Encode a weight adjustment as a storage-safe u64: the offset clamped to [-128, 127],
/// plus 128.
pub fn encode_weight(offset: i32) -> (raw: u64)
    ensures
        raw == clamp_offset(offset) + 128,
        raw <= 255,
{
    let clamped = if offset < -128 {
        -128
    } else if offset > 127 {
        127
    } else {
        offset
    };
    (clamped + 128) as u64
}

/// The offset clamped to the range [-128, 127].
pub open spec fn clamp_offset(offset: i32) -> int {
    if offset < -128 {
        -128
    } else if offset > 127 {
        127
    } else {
        offset as int
    }
}

pub const PST_PAWN: [i32; 64] = [
    0, 0, 0, 0, 0, 0, 0, 0,
    50, 50, 50, 50, 50, 50, 50, 50,
    10, 10, 20, 30, 30, 20, 10, 10,
    5, 5, 10, 25, 25, 10, 5, 5,
    0, 0, 0, 20, 20, 0, 0, 0,
    5, -5, -10, 0, 0, -10, -5, 5,
    5, 10, 10, -20, -20, 10, 10, 5,
    0, 0, 0, 0, 0, 0, 0, 0,
];

pub const PST_KNIGHT: [i32; 64] = [
    -50, -40, -30, -30, -30, -30, -40, -50,
    -40, -20, 0, 0, 0, 0, -20, -40,
    -30, 0, 10, 15, 15, 10, 0, -30,
    -30, 5, 15, 20, 20, 15, 5, -30,
    -30, 0, 15, 20, 20, 15, 0, -30,
    -30, 5, 10, 15, 15, 10, 5, -30,
    -40, -20, 0, 5, 5, 0, -20, -40,
    -50, -40, -30, -30, -30, -30, -40, -50,
];

pub const PST_BISHOP: [i32; 64] = [
    -20, -10, -10, -10, -10, -10, -10, -20,
    -10, 0, 0, 0, 0, 0, 0, -10,
    -10, 0, 5, 10, 10, 5, 0, -10,
    -10, 5, 5, 10, 10, 5, 5, -10,
    -10, 0, 10, 10, 10, 10, 0, -10,
    -10, 10, 10, 10, 10, 10, 10, -10,
    -10, 5, 0, 0, 0, 0, 5, -10,
    -20, -10, -10, -10, -10, -10, -10, -20,
];

pub const PST_ROOK: [i32; 64] = [
    0, 0, 0, 0, 0, 0, 0, 0,
    5, 10, 10, 10, 10, 10, 10, 5,
    -5, 0, 0, 0, 0, 0, 0, -5,
    -5, 0, 0, 0, 0, 0, 0, -5,
    -5, 0, 0, 0, 0, 0, 0, -5,
    -5, 0, 0, 0, 0, 0, 0, -5,
    -5, 0, 0, 0, 0, 0, 0, -5,
    0, 0, 0, 5, 5, 0, 0, 0,
];

pub const PST_QUEEN: [i32; 64] = [
    -20, -10, -10, -5, -5, -10, -10, -20,
    -10, 0, 0, 0, 0, 0, 0, -10,
    -10, 0, 5, 5, 5, 5, 0, -10,
    -5, 0, 5, 5, 5, 5, 0, -5,
    0, 0, 5, 5, 5, 5, 0, -5,
    -10, 5, 5, 5, 5, 5, 0, -10,
    -10, 0, 5, 0, 0, 0, 0, -10,
    -20, -10, -10, -5, -5, -10, -10, -20,
];

pub const PST_KING: [i32; 64] = [
    -30, -40, -40, -50, -50, -40, -40, -30,
    -30, -40, -40, -50, -50, -40, -40, -30,
    -30, -40, -40, -50, -50, -40, -40, -30,
    -30, -40, -40, -50, -50, -40, -40, -30,
    -20, -30, -30, -40, -40, -30, -30, -20,
    -10, -20, -20, -20, -20, -20, -20, -10,
    20, 20, 0, 0, 0, 0, 20, 20,
    20, 30, 10, 0, 0, 10, 30, 20,
];

/// Material value of a piece kind (0 = pawn ... 5 = king).
pub open spec fn kind_value(kind: int) -> i32 {
    if kind == 0 {
        VAL_PAWN
    } else if kind == 1 {
        VAL_KNIGHT
    } else if kind == 2 {
        VAL_BISHOP
    } else if kind == 3 {
        VAL_ROOK
    } else if kind == 4 {
        VAL_QUEEN
    } else {
        VAL_KING
    }
}

/// Piece-square table of a piece kind, from white's point of view.
pub open spec fn kind_table(kind: int) -> Seq<i32> {
    if kind == 0 {
        PST_PAWN@
    } else if kind == 1 {
        PST_KNIGHT@
    } else if kind == 2 {
        PST_BISHOP@
    } else if kind == 3 {
        PST_ROOK@
    } else if kind == 4 {
        PST_QUEEN@
    } else {
        PST_KING@
    }
}

/// The square seen from the other side of the board (rank flipped).
pub open spec fn mirror_sq(sq: u8) -> int {
    (7 - sq / 8) * 8 + sq % 8
}

/// The kind of a piece code 1..=12 (0 = pawn ... 5 = king).
pub open spec fn piece_kind(piece: u8) -> int {
    (piece - 1) % 6
}

/// Value of a piece of either colour on `sq`, before the colour's sign.
pub open spec fn raw_score(piece: u8, sq: u8, adj: Seq<i32>) -> int {
    let kind = piece_kind(piece);
    let idx = if is_white(piece) { sq as int } else { mirror_sq(sq) };
    kind_value(kind) + kind_table(kind)[idx] + adj[kind]
}

/// Contribution of a piece on `sq` from white's point of view (0 for codes outside 1..=12).
pub open spec fn piece_score(piece: u8, sq: u8, adj: Seq<i32>) -> int {
    if W_PAWN <= piece <= B_KING {
        if is_white(piece) {
            raw_score(piece, sq, adj)
        } else {
            -raw_score(piece, sq, adj)
        }
    } else {
        0
    }
}

/// The value of a piece code fits in an `i32`.
pub open spec fn piece_score_fits(piece: u8, sq: u8, adj: Seq<i32>) -> bool {
    W_PAWN <= piece <= B_KING ==> raw_score(piece, sq, adj) <= i32::MAX
}

/// Sum of the contributions of the first `n` squares.
pub open spec fn eval_prefix(b: BoardView, adj: Seq<i32>, n: int) -> int
    decreases n,
{
    if n <= 0 {
        0
    } else {
        eval_prefix(b, adj, n - 1) + piece_score(b.squares[n - 1], (n - 1) as u8, adj)
    }
}

/// Material plus piece-square evaluation from white's point of view.
pub open spec fn evaluation(b: BoardView, adj: Seq<i32>) -> int {
    eval_prefix(b, adj, 64)
}

/// Summing the evaluation square by square never leaves the `i32` range.
pub open spec fn eval_fits(b: BoardView, adj: Seq<i32>) -> bool {
    &&& forall|sq: int| 0 <= sq < 64 ==> piece_score_fits(#[trigger] b.squares[sq], sq as u8, adj)
    &&& forall|n: int| 0 <= n <= 64 ==> i32::MIN <= #[trigger] eval_prefix(b, adj, n) <= i32::MAX
}

/// Evaluation from the point of view of the side to move.
pub open spec fn side_evaluation(b: BoardView, adj: Seq<i32>) -> int {
    if b.side == WHITE {
        evaluation(b, adj)
    } else {
        -evaluation(b, adj)
    }
}

/// Every piece-square table entry lies within [-50, 50].
pub proof fn lemma_table_bounds(kind: int, idx: int)
    requires
        0 <= kind < 6,
        0 <= idx < 64,
    ensures
        -50 <= kind_table(kind)[idx] <= 50,
{
    assert(forall|i: int| 0 <= i < 64 ==> -50 <= #[trigger] PST_PAWN@[i] <= 50);
    assert(forall|i: int| 0 <= i < 64 ==> -50 <= #[trigger] PST_KNIGHT@[i] <= 50);
    assert(forall|i: int| 0 <= i < 64 ==> -50 <= #[trigger] PST_BISHOP@[i] <= 50);
    assert(forall|i: int| 0 <= i < 64 ==> -50 <= #[trigger] PST_ROOK@[i] <= 50);
    assert(forall|i: int| 0 <= i < 64 ==> -50 <= #[trigger] PST_QUEEN@[i] <= 50);
    assert(forall|i: int| 0 <= i < 64 ==> -50 <= #[trigger] PST_KING@[i] <= 50);
}

fn mirror(sq: u8) -> (m: u8)
    requires
        sq < 64,
    ensures
        m == mirror_sq(sq),
{
    (7 - sq / 8) * 8 + sq % 8
}

/// Material value plus table entry of a piece on `sq`, before its weight offset and its
/// colour's sign.
fn piece_base(piece: u8, sq: u8) -> (base: i32)
    requires
        W_PAWN <= piece <= B_KING,
        sq < 64,
    ensures
        base == kind_value(piece_kind(piece)) + kind_table(piece_kind(piece))[if is_white(piece) {
            sq as int
        } else {
            mirror_sq(sq)
        }],
        50 <= base <= 20_050,
{
    let kind = (piece - 1) % 6;
    let (val, table): (i32, &[i32]) = if kind == 0 {
        (VAL_PAWN, PST_PAWN.as_slice())
    } else if kind == 1 {
        (VAL_KNIGHT, PST_KNIGHT.as_slice())
    } else if kind == 2 {
        (VAL_BISHOP, PST_BISHOP.as_slice())
    } else if kind == 3 {
        (VAL_ROOK, PST_ROOK.as_slice())
    } else if kind == 4 {
        (VAL_QUEEN, PST_QUEEN.as_slice())
    } else {
        (VAL_KING, PST_KING.as_slice())
    };
    assert(val == kind_value(piece_kind(piece)));
    assert(table@ == kind_table(piece_kind(piece)));
    let idx = if piece <= W_KING { sq as usize } else { mirror(sq) as usize };
    proof {
        lemma_table_bounds(piece_kind(piece), idx as int);
    }
    val + table[idx]
}

fn pst_score(piece: u8, sq: u8, adj: &WeightAdj) -> (score: i32)
    requires
        sq < 64,
        piece_score_fits(piece, sq, adj@),
    ensures
        score == piece_score(piece, sq, adj@),
{
    if piece < W_PAWN || piece > B_KING {
        return 0;
    }
    let raw = piece_base(piece, sq) + adj[((piece - 1) % 6) as usize];
    if piece <= W_KING {
        raw
    } else {
        -raw
    }
}

/// Whether the contribution of a piece on `sq` fits in an `i32`.
fn piece_fits(piece: u8, sq: u8, adj: &WeightAdj) -> (ok: bool)
    requires
        sq < 64,
    ensures
        ok == piece_score_fits(piece, sq, adj@),
{
    if piece < W_PAWN || piece > B_KING {
        return true;
    }
    let base = piece_base(piece, sq);
    adj[((piece - 1) % 6) as usize] <= i32::MAX - base
}

/// Evaluate from white's perspective; the caller negates for black to move.
pub fn evaluate_abs(board: &Board, adj: &WeightAdj) -> (score: i32)
    requires
        eval_fits(board@, adj@),
    ensures
        score == evaluation(board@, adj@),
{
    let mut total: i32 = 0;
    for sq in 0..64usize
        invariant
            eval_fits(board@, adj@),
            total == eval_prefix(board@, adj@, sq as int),
    {
        let p = board.squares[sq];
        assert(piece_score_fits(board@.squares[sq as int], sq as u8, adj@));
        let s = if p == 0 {
            0
        } else {
            pst_score(p, sq as u8, adj)
        };
        assert(i32::MIN <= eval_prefix(board@, adj@, sq + 1) <= i32::MAX);
        total = total + s;
    }
    total
}

/// Evaluate from the side-to-move's perspective (positive = good for the side to move).
pub fn evaluate(board: &Board, adj: &WeightAdj) -> (score: i32)
    requires
        eval_fits(board@, adj@),
        board.side != WHITE ==> evaluation(board@, adj@) != i32::MIN,
    ensures
        score == side_evaluation(board@, adj@),
{
    let abs = evaluate_abs(board, adj);
    if board.side == WHITE {
        abs
    } else {
        -abs
    }
}

/// The evaluation from the side to move's perspective, or `None` exactly when computing
/// it would leave the `i32` range: a piece's contribution, a running sum, or the
/// negation for black.
pub fn evaluate_checked(board: &Board, adj: &WeightAdj) -> (score: Option<i32>)
    ensures
        score is Some <==> eval_fits(board@, adj@) && (board.side != WHITE ==> evaluation(board@, adj@)
            != i32::MIN),
        score matches Some(v) ==> v == side_evaluation(board@, adj@),
{
    let mut total: i32 = 0;
    for sq in 0..64usize
        invariant
            forall|j: int| 0 <= j < sq ==> piece_score_fits(#[trigger] board@.squares[j], j as u8, adj@),
            forall|n: int| 0 <= n <= sq ==> i32::MIN <= #[trigger] eval_prefix(board@, adj@, n) <= i32::MAX,
            total == eval_prefix(board@, adj@, sq as int),
    {
        let p = board.squares[sq];
        if !piece_fits(p, sq as u8, adj) {
            assert(!piece_score_fits(board@.squares[sq as int], sq as u8, adj@));
            return None;
        }
        let s = pst_score(p, sq as u8, adj);
        assert(eval_prefix(board@, adj@, sq + 1) == total + s);
        match total.checked_add(s) {
            Some(t) => {
                total = t;
            },
            None => {
                assert(!(i32::MIN <= eval_prefix(board@, adj@, sq + 1) <= i32::MAX));
                return None;
            },
        }
    }
    if board.side == WHITE {
        Some(total)
    } else if total == i32::MIN {
        None
    } else {
        Some(-total)
    }
}

/// The piece of the other colour (codes other than pieces are kept).
pub open spec fn swap_colour(p: u8) -> u8 {
    if W_PAWN <= p <= W_KING {
        (p + 6) as u8
    } else if B_PAWN <= p <= B_KING {
        (p - 6) as u8
    } else {
        p
    }
}

/// The position seen from the other side: ranks mirrored and colours swapped.
pub open spec fn flip_colours(b: BoardView) -> BoardView {
    BoardView {
        squares: Seq::new(64, |s: int| swap_colour(b.squares[mirror_sq(s as u8)])),
        side: !b.side,
        ..b
    }
}

proof fn lemma_swapped_piece_score(p: u8, s: u8, adj: Seq<i32>)
    requires
        s < 64,
    ensures
        piece_score(swap_colour(p), s, adj) == -piece_score(p, mirror_sq(s) as u8, adj),
{
    let m = mirror_sq(s) as u8;
    assert(mirror_sq(m) == s as int);
}

/// The sum of the contributions of the first `k` squares of rank `r`.
spec fn rank_sum(b: BoardView, adj: Seq<i32>, r: int, k: int) -> int
    decreases k,
{
    if k <= 0 {
        0
    } else {
        rank_sum(b, adj, r, k - 1) + piece_score(b.squares[8 * r + k - 1], (8 * r + k - 1) as u8, adj)
    }
}

proof fn lemma_prefix_by_rank(b: BoardView, adj: Seq<i32>, r: int, k: int)
    requires
        0 <= r < 8,
        0 <= k <= 8,
    ensures
        eval_prefix(b, adj, 8 * r + k) == eval_prefix(b, adj, 8 * r) + rank_sum(b, adj, r, k),
    decreases k,
{
    if k > 0 {
        lemma_prefix_by_rank(b, adj, r, k - 1);
    }
}

proof fn lemma_flipped_rank_sum(b: BoardView, adj: Seq<i32>, r: int, k: int)
    requires
        b.squares.len() == 64,
        0 <= r < 8,
        0 <= k <= 8,
    ensures
        rank_sum(flip_colours(b), adj, r, k) == -rank_sum(b, adj, 7 - r, k),
    decreases k,
{
    if k > 0 {
        lemma_flipped_rank_sum(b, adj, r, k - 1);
        let s = (8 * r + k - 1) as u8;
        assert(s / 8 == r && s % 8 == k - 1);
        assert(mirror_sq(s) == 8 * (7 - r) + k - 1);
        assert(flip_colours(b).squares[s as int] == swap_colour(b.squares[8 * (7 - r) + k - 1]));
        lemma_swapped_piece_score(b.squares[8 * (7 - r) + k - 1], s, adj);
    }
}

/// Swapping the colours of a position and mirroring its ranks negates its evaluation, for
/// every weight adjustment.
pub proof fn lemma_evaluation_colour_flip(b: BoardView, adj: Seq<i32>)
    requires
        b.squares.len() == 64,
    ensures
        evaluation(flip_colours(b), adj) == -evaluation(b, adj),
{
    let f = flip_colours(b);
    lemma_prefix_by_rank(b, adj, 0, 8);
    lemma_prefix_by_rank(b, adj, 1, 8);
    lemma_prefix_by_rank(b, adj, 2, 8);
    lemma_prefix_by_rank(b, adj, 3, 8);
    lemma_prefix_by_rank(b, adj, 4, 8);
    lemma_prefix_by_rank(b, adj, 5, 8);
    lemma_prefix_by_rank(b, adj, 6, 8);
    lemma_prefix_by_rank(b, adj, 7, 8);
    lemma_prefix_by_rank(f, adj, 0, 8);
    lemma_prefix_by_rank(f, adj, 1, 8);
    lemma_prefix_by_rank(f, adj, 2, 8);
    lemma_prefix_by_rank(f, adj, 3, 8);
    lemma_prefix_by_rank(f, adj, 4, 8);
    lemma_prefix_by_rank(f, adj, 5, 8);
    lemma_prefix_by_rank(f, adj, 6, 8);
    lemma_prefix_by_rank(f, adj, 7, 8);
    lemma_flipped_rank_sum(b, adj, 0, 8);
    lemma_flipped_rank_sum(b, adj, 1, 8);
    lemma_flipped_rank_sum(b, adj, 2, 8);
    lemma_flipped_rank_sum(b, adj, 3, 8);
    lemma_flipped_rank_sum(b, adj, 4, 8);
    lemma_flipped_rank_sum(b, adj, 5, 8);
    lemma_flipped_rank_sum(b, adj, 6, 8);
    lemma_flipped_rank_sum(b, adj, 7, 8);
}

/// The starting position is its own colour flip, so it evaluates to 0 whatever the
/// weights.
pub proof fn lemma_start_position_balanced(adj: Seq<i32>)
    ensures
        evaluation(start_position(), adj) == 0,
{
    let b = start_position();
    assert(flip_colours(b).squares =~= b.squares);
    assert(flip_colours(b).ep_sq == b.ep_sq && flip_colours(b).castling == b.castling);
    lemma_evaluation_colour_flip(b, adj);
    lemma_eval_prefix_squares(flip_colours(b), b, adj, 64);
}

proof fn lemma_eval_prefix_squares(b1: BoardView, b2: BoardView, adj: Seq<i32>, n: int)
    requires
        b1.squares == b2.squares,
    ensures
        eval_prefix(b1, adj, n) == eval_prefix(b2, adj, n),
    decreases n,
{
    if n > 0 {
        lemma_eval_prefix_squares(b1, b2, adj, n - 1);
    }
}

/// Encoding an offset in [-128, 127] and decoding it again gives the offset back; every
/// encoding decodes without overflow.
pub proof fn lemma_weight_roundtrip(offset: i32)
    ensures
        (clamp_offset(offset) + 128) as u64 as i32 >= i32::MIN + 128,
        -128 <= offset <= 127 ==> (clamp_offset(offset) + 128) as u64 as i32 - 128 == offset,
{
}

} // verus!
