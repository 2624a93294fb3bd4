//! Negamax with alpha-beta pruning.
use vstd::prelude::*;

use crate::board::{apply_move_spec, move_applicable, Board, BoardView, Move};
use crate::board::{is_white, B_KING, W_PAWN};
use crate::eval::{
    eval_fits, eval_prefix, evaluate_checked, evaluation, lemma_table_bounds, mirror_sq, piece_kind, piece_score,
    piece_score_fits, side_evaluation, WeightAdj,
};
use crate::moves::{
    all_applicable, generate_legal, in_check_spec, keeps_king_safe, legal_moves, lemma_legal_moves_are_safe,
    lemma_pseudo_legal_moves_shaped,
    lemma_pseudo_legal_applicable, pseudo_legal_moves,
};

verus! {

pub const SEARCH_DEPTH: u8 = 3;

pub const INF: i32 = 1_000_000;

/// The weights keep the evaluation of every position inside the `i32` range, negation
/// included.
pub open spec fn weights_fit(adj: Seq<i32>) -> bool {
    forall|b: BoardView|
        b.squares.len() == 64 ==> #[trigger] eval_fits(b, adj) && evaluation(b, adj) != i32::MIN
}

/// A bound on the weight adjustments up to which every evaluation fits in an `i32`.
pub const WEIGHT_LIMIT: i32 = 33_000_000;

/// The adjustments of the six piece kinds (the entries that the evaluation reads) are
/// within the weight limit.
pub open spec fn weights_within_limit(adj: Seq<i32>) -> bool {
    adj.len() == 12 && forall|i: int| 0 <= i < 6 ==> -WEIGHT_LIMIT <= #[trigger] adj[i] <= WEIGHT_LIMIT
}

/// Each square contributes at most a king's value, a table entry and the limit.
proof fn lemma_piece_score_bound(piece: u8, sq: u8, adj: Seq<i32>)
    requires
        sq < 64,
        weights_within_limit(adj),
    ensures
        -(20050 + WEIGHT_LIMIT) <= piece_score(piece, sq, adj) <= 20050 + WEIGHT_LIMIT,
        piece_score_fits(piece, sq, adj),
{
    if W_PAWN <= piece <= B_KING {
        let kind = piece_kind(piece);
        let idx = if is_white(piece) { sq as int } else { mirror_sq(sq) };
        lemma_table_bounds(kind, idx);
        assert(0 <= kind < 6);
    }
}

proof fn lemma_eval_prefix_bound(b: BoardView, adj: Seq<i32>, n: int)
    requires
        0 <= n <= 64,
        b.squares.len() == 64,
        weights_within_limit(adj),
    ensures
        -n * (20050 + WEIGHT_LIMIT) <= eval_prefix(b, adj, n) <= n * (20050 + WEIGHT_LIMIT),
    decreases n,
{
    if n > 0 {
        lemma_eval_prefix_bound(b, adj, n - 1);
        lemma_piece_score_bound(b.squares[n - 1], (n - 1) as u8, adj);
    }
}

/// Weights within the limit keep every evaluation inside the `i32` range.
pub proof fn lemma_bounded_weights_fit(adj: Seq<i32>)
    requires
        weights_within_limit(adj),
    ensures
        weights_fit(adj),
{
    assert forall|b: BoardView| b.squares.len() == 64 implies #[trigger] eval_fits(b, adj) && evaluation(b, adj)
        != i32::MIN by {
        assert forall|sq: int| 0 <= sq < 64 implies piece_score_fits(#[trigger] b.squares[sq], sq as u8, adj) by {
            lemma_piece_score_bound(b.squares[sq], sq as u8, adj);
        }
        assert forall|n: int| 0 <= n <= 64 implies i32::MIN <= #[trigger] eval_prefix(b, adj, n) <= i32::MAX by {
            lemma_eval_prefix_bound(b, adj, n);
        }
        lemma_eval_prefix_bound(b, adj, 64);
    }
}

/// Score of a side that is checkmated with `depth` plies left: the mate found sooner
/// scores lower for the mated side.
pub open spec fn mated_score(depth: nat) -> int {
    -INF + (SEARCH_DEPTH - depth)
}

/// The result of the negamax alpha-beta search: at depth 0 the static evaluation; with no
/// legal move a mate or stalemate score; else the scan of the legal moves in order.
pub open spec fn search_result(b: BoardView, depth: nat, alpha: int, beta: int, adj: Seq<i32>) -> (
    Move,
    int,
)
    decreases depth, 1int, 0int,
{
    if depth == 0 {
        (Move(0), side_evaluation(b, adj))
    } else {
        let moves = legal_moves(b);
        if moves.len() == 0 {
            if in_check_spec(b, b.side) {
                (Move(0), mated_score(depth))
            } else {
                (Move(0), 0)
            }
        } else {
            scan_moves(b, depth, alpha, beta, adj, moves, 0, moves[0], -INF)
        }
    }
}

/// The scan of `moves` from index `i`: each move's score is the negated result of the
/// child search with the window (-beta, -alpha); the first strictly better score is kept,
/// alpha rises with the scores, and the scan stops once alpha reaches beta.
pub open spec fn scan_moves(
    b: BoardView,
    depth: nat,
    alpha: int,
    beta: int,
    adj: Seq<i32>,
    moves: Seq<Move>,
    i: nat,
    best_move: Move,
    best_score: int,
) -> (Move, int)
    decreases depth, 0int, moves.len() - i,
{
    if i >= moves.len() || depth == 0 {
        (best_move, best_score)
    } else {
        let mv = moves[i as int];
        let score = -search_result(apply_move_spec(b, mv), (depth - 1) as nat, -beta, -alpha, adj).1;
        let improved = score > best_score;
        let nbm = if improved { mv } else { best_move };
        let nbs = if improved { score } else { best_score };
        let nalpha = if score > alpha { score } else { alpha };
        if nalpha >= beta {
            (nbm, nbs)
        } else {
            scan_moves(b, depth, nalpha, beta, adj, moves, (i + 1) as nat, nbm, nbs)
        }
    }
}

/// The search visits no node where its `i32` arithmetic would overflow: every evaluated
/// leaf fits (and its negation too when black is to move), every mate found has at most
/// `SEARCH_DEPTH` plies left, alpha and beta can be negated wherever a child is searched,
/// and every child score can be negated.
pub open spec fn search_safe(b: BoardView, depth: nat, alpha: int, beta: int, adj: Seq<i32>) -> bool
    decreases depth, 1int, 0int,
{
    if depth == 0 {
        eval_fits(b, adj) && (b.side != crate::board::WHITE ==> evaluation(b, adj) != i32::MIN)
    } else {
        let moves = legal_moves(b);
        if moves.len() == 0 {
            in_check_spec(b, b.side) ==> depth <= SEARCH_DEPTH
        } else {
            scan_safe(b, depth, alpha, beta, adj, moves, 0, moves[0], -INF)
        }
    }
}

/// The scan from index `i` negates only negatable windows and visits only safe children
/// whose scores can be negated.
pub open spec fn scan_safe(
    b: BoardView,
    depth: nat,
    alpha: int,
    beta: int,
    adj: Seq<i32>,
    moves: Seq<Move>,
    i: nat,
    best_move: Move,
    best_score: int,
) -> bool
    decreases depth, 0int, moves.len() - i,
{
    if i >= moves.len() || depth == 0 {
        true
    } else {
        let mv = moves[i as int];
        let child = apply_move_spec(b, mv);
        let r = search_result(child, (depth - 1) as nat, -beta, -alpha, adj).1;
        let score = -r;
        let improved = score > best_score;
        let nbm = if improved { mv } else { best_move };
        let nbs = if improved { score } else { best_score };
        let nalpha = if score > alpha { score } else { alpha };
        &&& alpha > i32::MIN
        &&& beta > i32::MIN
        &&& search_safe(child, (depth - 1) as nat, -beta, -alpha, adj)
        &&& r != i32::MIN
        &&& (nalpha >= beta || scan_safe(b, depth, nalpha, beta, adj, moves, (i + 1) as nat, nbm, nbs))
    }
}

/// Weights that keep every evaluation in range make every search of at most
/// `SEARCH_DEPTH` plies with an `i32` window other than `i32::MIN` safe, and its result an
/// `i32` other than `i32::MIN`.
pub proof fn lemma_fitting_weights_search_safe(b: BoardView, depth: nat, alpha: int, beta: int, adj: Seq<i32>)
    requires
        b.squares.len() == 64,
        depth <= SEARCH_DEPTH,
        weights_fit(adj),
        i32::MIN < alpha <= i32::MAX,
        i32::MIN < beta <= i32::MAX,
    ensures
        search_safe(b, depth, alpha, beta, adj),
        i32::MIN < search_result(b, depth, alpha, beta, adj).1 <= i32::MAX,
    decreases depth, 1int, 0int,
{
    if depth == 0 {
        assert(eval_fits(b, adj) && evaluation(b, adj) != i32::MIN);
        assert(i32::MIN <= eval_prefix(b, adj, 64) <= i32::MAX);
    } else {
        let moves = legal_moves(b);
        if moves.len() > 0 {
            lemma_legal_applicable(b);
            lemma_fitting_weights_scan_safe(b, depth, alpha, beta, adj, moves, 0, moves[0], -INF);
            lemma_scan_at_least(b, depth, alpha, beta, adj, moves, 0, moves[0], -INF);
        }
    }
}

proof fn lemma_fitting_weights_scan_safe(
    b: BoardView,
    depth: nat,
    alpha: int,
    beta: int,
    adj: Seq<i32>,
    moves: Seq<Move>,
    i: nat,
    bm: Move,
    bs: int,
)
    requires
        b.squares.len() == 64,
        1 <= depth <= SEARCH_DEPTH,
        weights_fit(adj),
        all_applicable(b, moves),
        i32::MIN < alpha <= i32::MAX,
        i32::MIN < beta <= i32::MAX,
        bs <= i32::MAX,
    ensures
        scan_safe(b, depth, alpha, beta, adj, moves, i, bm, bs),
        scan_moves(b, depth, alpha, beta, adj, moves, i, bm, bs).1 <= i32::MAX,
    decreases depth, 0int, moves.len() - i,
{
    if i < moves.len() {
        let mv = moves[i as int];
        let child = apply_move_spec(b, mv);
        assert(move_applicable(b, mv));
        crate::board::lemma_move_ranges(mv);
        assert(child.squares.len() == 64);
        lemma_fitting_weights_search_safe(child, (depth - 1) as nat, -beta, -alpha, adj);
        let score = -search_result(child, (depth - 1) as nat, -beta, -alpha, adj).1;
        let nbm = if score > bs { mv } else { bm };
        let nbs = if score > bs { score } else { bs };
        let nalpha = if score > alpha { score } else { alpha };
        if nalpha < beta {
            lemma_fitting_weights_scan_safe(b, depth, nalpha, beta, adj, moves, (i + 1) as nat, nbm, nbs);
        }
    }
}

/// The negamax value of a position: at depth 0 the static evaluation; with no legal move
/// a mate or stalemate score; else the largest negated child value, never below `-INF`.
pub open spec fn negamax(b: BoardView, depth: nat, adj: Seq<i32>) -> int
    decreases depth, 1int, 0int,
{
    if depth == 0 {
        side_evaluation(b, adj)
    } else {
        let moves = legal_moves(b);
        if moves.len() == 0 {
            if in_check_spec(b, b.side) {
                mated_score(depth)
            } else {
                0
            }
        } else {
            best_child_value(b, depth, adj, moves, 0, -INF)
        }
    }
}

/// The largest of `acc` and the negated negamax values of the children reached by
/// `moves` from index `i` on.
pub open spec fn best_child_value(
    b: BoardView,
    depth: nat,
    adj: Seq<i32>,
    moves: Seq<Move>,
    i: nat,
    acc: int,
) -> int
    decreases depth, 0int, moves.len() - i,
{
    if i >= moves.len() || depth == 0 {
        acc
    } else {
        let t = -negamax(apply_move_spec(b, moves[i as int]), (depth - 1) as nat, adj);
        best_child_value(b, depth, adj, moves, (i + 1) as nat, if t > acc { t } else { acc })
    }
}

proof fn lemma_best_child_value_at_least(
    b: BoardView,
    depth: nat,
    adj: Seq<i32>,
    moves: Seq<Move>,
    i: nat,
    acc: int,
)
    ensures
        best_child_value(b, depth, adj, moves, i, acc) >= acc,
    decreases moves.len() - i,
{
    if i < moves.len() && depth != 0 {
        let t = -negamax(apply_move_spec(b, moves[i as int]), (depth - 1) as nat, adj);
        lemma_best_child_value_at_least(b, depth, adj, moves, (i + 1) as nat, if t > acc { t } else { acc });
    }
}

/// The negated negamax value of the child that `mv` leads to.
pub open spec fn child_value(b: BoardView, depth: nat, adj: Seq<i32>, mv: Move) -> int {
    -negamax(apply_move_spec(b, mv), (depth - 1) as nat, adj)
}

/// `m` is the first of `moves` whose child value is `v`: every move before it has a
/// smaller child value.
pub open spec fn first_attaining(b: BoardView, depth: nat, adj: Seq<i32>, moves: Seq<Move>, m: Move, v: int) -> bool {
    exists|j: int|
        0 <= j < moves.len() && #[trigger] moves[j] == m && child_value(b, depth, adj, m) == v && forall|k: int|
            0 <= k < j ==> child_value(b, depth, adj, #[trigger] moves[k]) < v
}

/// The scan of the moves keeps the fail-soft bounds: `bs` is the best score seen so far,
/// `acc` the best true value so far, and `a0` the alpha the scan started with.
proof fn lemma_scan_bounds(
    b: BoardView,
    depth: nat,
    a0: int,
    alpha: int,
    beta: int,
    adj: Seq<i32>,
    moves: Seq<Move>,
    i: nat,
    bm: Move,
    bs: int,
    acc: int,
)
    requires
        depth >= 1,
        moves == legal_moves(b),
        i <= moves.len(),
        -INF <= a0 <= alpha < beta <= INF,
        alpha == (if bs > a0 { bs } else { a0 }),
        bs <= a0 ==> acc <= bs,
        bs > a0 ==> acc == bs && exists|j: int|
            0 <= j < i && #[trigger] moves[j] == bm && child_value(b, depth, adj, bm) == bs && forall|k: int|
                0 <= k < j ==> child_value(b, depth, adj, #[trigger] moves[k]) < bs,
        forall|k: int| 0 <= k < i ==> child_value(b, depth, adj, #[trigger] moves[k]) <= bs,
    ensures
        ({
            let r = scan_moves(b, depth, alpha, beta, adj, moves, i, bm, bs);
            let v = best_child_value(b, depth, adj, moves, i, acc);
            &&& r.1 <= a0 ==> v <= r.1
            &&& a0 < r.1 < beta ==> v == r.1 && first_attaining(b, depth, adj, moves, r.0, r.1)
            &&& r.1 >= beta ==> v >= r.1
        }),
    decreases depth, 0int, moves.len() - i,
{
    if i < moves.len() {
        let mv = moves[i as int];
        let child = apply_move_spec(b, mv);
        lemma_search_bounds(child, (depth - 1) as nat, -beta, -alpha, adj);
        let s = -search_result(child, (depth - 1) as nat, -beta, -alpha, adj).1;
        let t = -negamax(child, (depth - 1) as nat, adj);
        let improved = s > bs;
        let nbm = if improved { mv } else { bm };
        let nbs = if improved { s } else { bs };
        let nalpha = if s > alpha { s } else { alpha };
        let nacc = if t > acc { t } else { acc };
        assert(t == child_value(b, depth, adj, moves[i as int]));
        if nalpha >= beta {
            lemma_best_child_value_at_least(b, depth, adj, moves, (i + 1) as nat, nacc);
        } else {
            if improved && nbs > a0 {
                assert(moves[i as int] == nbm && child_value(b, depth, adj, nbm) == nbs);
                assert(forall|k: int| 0 <= k < i ==> child_value(b, depth, adj, #[trigger] moves[k]) < nbs);
            } else if nbs > a0 {
                let j = choose|j: int|
                    0 <= j < i && #[trigger] moves[j] == bm && child_value(b, depth, adj, bm) == bs && forall|k: int|
                        0 <= k < j ==> child_value(b, depth, adj, #[trigger] moves[k]) < bs;
                assert(0 <= j < i + 1 && moves[j] == nbm);
            }
            lemma_scan_bounds(b, depth, a0, nalpha, beta, adj, moves, (i + 1) as nat, nbm, nbs, nacc);
        }
    }
}

/// Fail-soft alpha-beta: for every window inside `[-INF, INF]`, a search result at or
/// below alpha bounds the negamax value from above, one strictly inside the window is the
/// negamax value (and the move returned is the first legal move whose child reaches it),
/// and one at or above beta bounds it from below.
pub proof fn lemma_search_bounds(b: BoardView, depth: nat, alpha: int, beta: int, adj: Seq<i32>)
    requires
        -INF <= alpha < beta <= INF,
    ensures
        ({
            let r = search_result(b, depth, alpha, beta, adj);
            let v = negamax(b, depth, adj);
            &&& r.1 <= alpha ==> v <= r.1
            &&& alpha < r.1 < beta ==> v == r.1
            &&& r.1 >= beta ==> v >= r.1
            &&& alpha < r.1 < beta && depth > 0 && legal_moves(b).len() > 0 ==> first_attaining(
                b,
                depth,
                adj,
                legal_moves(b),
                r.0,
                r.1,
            )
        }),
    decreases depth, 1int, 0int,
{
    if depth > 0 {
        let moves = legal_moves(b);
        if moves.len() > 0 {
            lemma_scan_bounds(b, depth, alpha, alpha, beta, adj, moves, 0, moves[0], -INF, -INF);
        }
    }
}

/// At the full window, a search score below `INF` is exactly the negamax value, and when
/// that score is also above `-INF` the move returned is the first legal move whose child
/// value attains it.
pub proof fn lemma_full_window_is_negamax(b: BoardView, depth: nat, adj: Seq<i32>)
    requires
        search_result(b, depth, -INF as int, INF as int, adj).1 < INF,
    ensures
        search_result(b, depth, -INF as int, INF as int, adj).1 == negamax(b, depth, adj),
        search_result(b, depth, -INF as int, INF as int, adj).1 > -INF && depth > 0 && legal_moves(
            b,
        ).len() > 0 ==> ({
            let r = search_result(b, depth, -INF as int, INF as int, adj);
            first_attaining(b, depth, adj, legal_moves(b), r.0, r.1)
        }),
{
    lemma_search_bounds(b, depth, -INF as int, INF as int, adj);
    if depth > 0 {
        let moves = legal_moves(b);
        if moves.len() > 0 {
            lemma_scan_at_least(b, depth, -INF as int, INF as int, adj, moves, 0, moves[0], -INF);
            lemma_best_child_value_at_least(b, depth, adj, moves, 0, -INF);
        }
    }
}

proof fn lemma_scan_at_least(
    b: BoardView,
    depth: nat,
    alpha: int,
    beta: int,
    adj: Seq<i32>,
    moves: Seq<Move>,
    i: nat,
    bm: Move,
    bs: int,
)
    ensures
        scan_moves(b, depth, alpha, beta, adj, moves, i, bm, bs).1 >= bs,
    decreases moves.len() - i,
{
    if i < moves.len() && depth != 0 {
        let mv = moves[i as int];
        let score = -search_result(apply_move_spec(b, mv), (depth - 1) as nat, -beta, -alpha, adj).1;
        let nbm = if score > bs { mv } else { bm };
        let nbs = if score > bs { score } else { bs };
        let nalpha = if score > alpha { score } else { alpha };
        if nalpha < beta {
            lemma_scan_at_least(b, depth, nalpha, beta, adj, moves, (i + 1) as nat, nbm, nbs);
        }
    }
}

proof fn lemma_scan_move_from(
    b: BoardView,
    depth: nat,
    alpha: int,
    beta: int,
    adj: Seq<i32>,
    moves: Seq<Move>,
    i: nat,
    bm: Move,
    bs: int,
)
    requires
        moves.contains(bm),
    ensures
        moves.contains(scan_moves(b, depth, alpha, beta, adj, moves, i, bm, bs).0),
    decreases moves.len() - i,
{
    if i < moves.len() && depth != 0 {
        let mv = moves[i as int];
        let score = -search_result(apply_move_spec(b, mv), (depth - 1) as nat, -beta, -alpha, adj).1;
        let nbm = if score > bs { mv } else { bm };
        let nbs = if score > bs { score } else { bs };
        let nalpha = if score > alpha { score } else { alpha };
        assert(moves.contains(mv));
        if nalpha < beta {
            lemma_scan_move_from(b, depth, nalpha, beta, adj, moves, (i + 1) as nat, nbm, nbs);
        }
    }
}

/// With some depth left and a legal move available, the search answers with a legal move,
/// whatever the window and the weights.
pub proof fn lemma_search_move_is_legal(b: BoardView, depth: nat, alpha: int, beta: int, adj: Seq<i32>)
    requires
        depth > 0,
        legal_moves(b).len() > 0,
    ensures
        legal_moves(b).contains(search_result(b, depth, alpha, beta, adj).0),
{
    let moves = legal_moves(b);
    assert(moves.contains(moves[0]));
    lemma_scan_move_from(b, depth, alpha, beta, adj, moves, 0, moves[0], -INF);
}

/// With some depth left, the search answers with the null move exactly when the position
/// has no legal move, whatever the window and the weights.
pub proof fn lemma_null_move_iff_no_legal_move(b: BoardView, depth: nat, alpha: int, beta: int, adj: Seq<i32>)
    requires
        b.squares.len() == 64,
        depth > 0,
    ensures
        search_result(b, depth, alpha, beta, adj).0.is_null() <==> legal_moves(b).len() == 0,
{
    let moves = legal_moves(b);
    if moves.len() > 0 {
        let m = search_result(b, depth, alpha, beta, adj).0;
        lemma_search_move_is_legal(b, depth, alpha, beta, adj);
        lemma_legal_moves_are_safe(b);
        lemma_pseudo_legal_moves_shaped(b, b.side);
        let j = choose|j: int| 0 <= j < moves.len() && moves[j] == m;
        let pseudo = pseudo_legal_moves(b, b.side);
        assert(pseudo.contains(moves[j]));
        let k = choose|k: int| 0 <= k < pseudo.len() && pseudo[k] == m;
        assert(m.from_sq() != m.to_sq());
        let v = m.0;
        assert(v == 0u16 ==> (v & 0x3Fu16) == ((v >> 6u16) & 0x3Fu16)) by (bit_vector);
    }
}

/// Every legal move can be applied to the board.
pub proof fn lemma_legal_applicable(b: BoardView)
    requires
        b.squares.len() == 64,
    ensures
        all_applicable(b, legal_moves(b)),
{
    lemma_pseudo_legal_applicable(b, 64);
    let pseudo = pseudo_legal_moves(b, b.side);
    let pred = |mv: Move| keeps_king_safe(b, mv);
    let legal = legal_moves(b);
    assert forall|j: int| 0 <= j < legal.len() implies move_applicable(b, #[trigger] legal[j]) by {
        assert(legal.contains(legal[j]));
        pseudo.lemma_filter_contains_rev(pred, legal[j]);
        let k = choose|k: int| 0 <= k < pseudo.len() && pseudo[k] == legal[j];
        assert(move_applicable(b, pseudo[k]));
    }
}

/// Negamax alpha-beta with every overflow detected: the result of `search`, or `None`
/// exactly when that search would leave the `i32` range somewhere.
pub fn search_checked(board: &Board, depth: u8, alpha: i32, beta: i32, adj: &WeightAdj) -> (res: Option<
    (Move, i32),
>)
    ensures
        res is Some <==> search_safe(board@, depth as nat, alpha as int, beta as int, adj@),
        res matches Some(r) ==> r.0 == search_result(board@, depth as nat, alpha as int, beta as int, adj@).0
            && r.1 == search_result(board@, depth as nat, alpha as int, beta as int, adj@).1,
    decreases depth,
{
    let ghost b = board@;
    if depth == 0 {
        return match evaluate_checked(board, adj) {
            Some(v) => Some((Move::null(), v)),
            None => None,
        };
    }
    let moves = generate_legal(board);

    if moves.len() == 0 {
        return if board.in_check(board.side) {
            if depth > SEARCH_DEPTH {
                None
            } else {
                // Checkmate: losing, preferring faster mates
                Some((Move::null(), -INF + (SEARCH_DEPTH - depth) as i32))
            }
        } else {
            Some((Move::null(), 0))  // stalemate
        };
    }
    proof {
        lemma_legal_applicable(b);
    }
    let ghost target = scan_moves(b, depth as nat, alpha as int, beta as int, adj@, moves@, 0, moves@[0], -INF);
    let ghost safe = scan_safe(b, depth as nat, alpha as int, beta as int, adj@, moves@, 0, moves@[0], -INF);
    let mut best_alpha = alpha;
    let mut best_move = moves[0];
    let mut best_score = -INF;
    let mut i = 0usize;
    while i < moves.len()
        invariant_except_break
            scan_moves(b, depth as nat, best_alpha as int, beta as int, adj@, moves@, i as nat, best_move, best_score as int) == target,
            scan_safe(b, depth as nat, best_alpha as int, beta as int, adj@, moves@, i as nat, best_move, best_score as int) == safe,
        invariant
            b == board@,
            1 <= depth,
            i > 0 ==> best_alpha > i32::MIN,
            best_score > i32::MIN,
            moves@ == legal_moves(b),
            all_applicable(b, moves@),
            i <= moves.len(),
            safe == search_safe(b, depth as nat, alpha as int, beta as int, adj@),
        ensures
            safe,
            best_move == target.0,
            best_score == target.1,
        decreases moves.len() - i,
    {
        let mv = moves[i];
        assert(move_applicable(b, moves@[i as int]));
        let next = board.apply_move(mv);
        if beta == i32::MIN || best_alpha == i32::MIN {
            return None;
        }
        let child_score = match search_checked(&next, depth - 1, -beta, -best_alpha, adj) {
            Some((_, c)) => c,
            None => {
                return None;
            },
        };
        if child_score == i32::MIN {
            return None;
        }
        let score = -child_score;

        if score > best_score {
            best_score = score;
            best_move = mv;
        }
        if score > best_alpha {
            best_alpha = score;
        }
        if best_alpha >= beta {
            break;
        }
        i = i + 1;
    }
    Some((best_move, best_score))
}

/// Negamax alpha-beta. Returns `(best_move, score_from_side_to_move)`.
pub fn search(board: &Board, depth: u8, alpha: i32, beta: i32, adj: &WeightAdj) -> (res: (Move, i32))
    requires
        search_safe(board@, depth as nat, alpha as int, beta as int, adj@),
    ensures
        res.0 == search_result(board@, depth as nat, alpha as int, beta as int, adj@).0,
        res.1 == search_result(board@, depth as nat, alpha as int, beta as int, adj@).1,
{
    search_checked(board, depth, alpha, beta, adj).unwrap()
}

/// Convenience: the best move at the default depth.
pub fn best_move(board: &Board, adj: &WeightAdj) -> (mv: Move)
    requires
        search_safe(board@, SEARCH_DEPTH as nat, -INF as int, INF as int, adj@),
    ensures
        mv == search_result(board@, SEARCH_DEPTH as nat, -INF as int, INF as int, adj@).0,
{
    search(board, SEARCH_DEPTH, -INF, INF, adj).0
}

} // verus!
