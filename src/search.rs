use vstd::prelude::*;
use crate::board::{in_check_spec, make_board, wf, Board};
use crate::eval::{evaluate, evaluate_spec};
use crate::movegen::{generate_legal_moves, legal, legal_list};
use crate::moves::Move;
use crate::perft::{lemma_legal_code, move_code, move_code_count, nth_move};

verus! {

/// A score beyond any evaluation: a side mated at the root scores `-INF` plus the depth left.
pub const INF: i32 = 1_000_000;

/// The deepest search the mate scores leave room for.
pub const MAX_DEPTH: u32 = 1000;

/// Whether the side to move has a legal move.
pub open spec fn has_legal(b: Board) -> bool {
    exists|m: Move| legal(b, m)
}

/// The negamax value of `b` searched `depth` plies, for the side to move: the evaluation at
/// depth 0; with no legal move, `-INF + depth` in check (a nearer mate scores higher for the
/// mating side) and 0 otherwise; else the best over the legal moves of the negated value of
/// the position after it.
pub open spec fn node_value(b: Board, depth: nat) -> int
    decreases depth, move_code_count() + 1,
{
    if depth == 0 {
        evaluate_spec(b)
    } else if !has_legal(b) {
        if in_check_spec(b, b.side_to_move) {
            -INF + depth
        } else {
            0
        }
    } else {
        best_below(b, depth, move_code_count())
    }
}

/// The best value of the legal moves of `b` with a code below `k`; `-INF` if there is none.
pub open spec fn best_below(b: Board, depth: nat, k: int) -> int
    decreases depth, k,
{
    if depth == 0 || k <= 0 {
        -INF
    } else {
        let prev = best_below(b, depth, k - 1);
        let m = nth_move(k - 1);
        if legal(b, m) {
            let w = -node_value(make_board(b, m), (depth - 1) as nat);
            if w > prev {
                w
            } else {
                prev
            }
        } else {
            prev
        }
    }
}

/// Values lie strictly between `-INF` and `INF` within the supported depth.
pub proof fn lemma_value_bounds(b: Board, depth: nat)
    requires
        depth <= MAX_DEPTH,
    ensures
        -INF < node_value(b, depth) < INF,
    decreases depth, move_code_count() + 1,
{
    if depth == 0 {
        crate::eval::lemma_evaluate_bounds(b);
    } else if has_legal(b) {
        let m = choose|m: Move| legal(b, m);
        lemma_legal_code(b, m);
        lemma_best_below(b, depth, move_code_count(), m);
    }
}

/// `best_below` is the largest value among the legal moves with a code below `k`, and is
/// reached by one of them unless there is none.
#[verifier::spinoff_prover]
#[verifier::rlimit(100)]
pub proof fn lemma_best_below(b: Board, depth: nat, k: int, m: Move)
    requires
        0 < depth <= MAX_DEPTH,
        0 <= k <= move_code_count(),
    ensures
        -INF <= best_below(b, depth, k) < INF,
        legal(b, m) && move_code(m) < k ==> -node_value(make_board(b, m), (depth - 1) as nat)
            <= best_below(b, depth, k) && best_below(b, depth, k) > -INF,
        best_below(b, depth, k) > -INF ==> exists|x: Move|
            legal(b, x) && move_code(x) < k && #[trigger] node_value(make_board(b, x), (depth - 1) as nat)
                == -best_below(b, depth, k),
    decreases depth, k,
{
    if k > 0 {
        lemma_best_below(b, depth, k - 1, m);
        let x = nth_move(k - 1);
        if legal(b, x) {
            lemma_legal_code(b, x);
            lemma_value_bounds(make_board(b, x), (depth - 1) as nat);
        }
        if legal(b, m) && move_code(m) == k - 1 {
            lemma_legal_code(b, m);
        }
        if legal(b, m) && move_code(m) < k - 1 {
            lemma_legal_code(b, m);
            lemma_value_bounds(make_board(b, m), (depth - 1) as nat);
        }
    }
}

/// With moves to choose from, the value of `b` is at least that of each legal move and equal
/// to that of one of them.
pub proof fn lemma_value_is_best(b: Board, depth: nat)
    requires
        0 < depth <= MAX_DEPTH,
        has_legal(b),
    ensures
        forall|m: Move|
            legal(b, m) ==> -#[trigger] node_value(make_board(b, m), (depth - 1) as nat)
                <= node_value(b, depth),
        exists|x: Move|
            legal(b, x) && #[trigger] node_value(make_board(b, x), (depth - 1) as nat) == -node_value(
                b,
                depth,
            ),
{
    let m0 = choose|m: Move| legal(b, m);
    lemma_legal_code(b, m0);
    lemma_best_below(b, depth, move_code_count(), m0);
    assert forall|m: Move| legal(b, m) implies -#[trigger] node_value(
        make_board(b, m),
        (depth - 1) as nat,
    ) <= node_value(b, depth) by {
        lemma_legal_code(b, m);
        lemma_best_below(b, depth, move_code_count(), m);
    }
}

/// The best move for the side to move, searching `depth` plies, with its score from that
/// side's point of view: the score is the negamax value of the position and the move the
/// first in the list of legal moves as generated whose value reaches it; no move, and
/// `-INF`, when there is no legal move. The board is given back as it was.
#[verifier::spinoff_prover]
#[verifier::rlimit(100)]
pub fn search(board: &mut Board, depth: u32) -> (r: (i32, Option<Move>))
    requires
        wf(*old(board)),
        1 <= depth <= MAX_DEPTH,
    ensures
        *final(board) == *old(board),
        r.1.is_none() <==> !has_legal(*old(board)),
        r.1.is_none() ==> r.0 == -INF,
        r.1 matches Some(m) ==> legal(*old(board), m) && r.0 == node_value(*old(board), depth as nat)
            && r.0 == -node_value(make_board(*old(board), m), (depth - 1) as nat),
        r.1 matches Some(m) ==> exists|l: Seq<Move>, k: int|
            legal_list(*old(board), l) && 0 <= k < l.len() && #[trigger] l[k] == m && forall|j: int|
                0 <= j < k ==> -#[trigger] node_value(make_board(*old(board), l[j]), (depth - 1) as nat)
                    < r.0,
{
    let ghost b0 = *board;
    let mut best_score: i32 = -INF;
    let mut best_move: Option<Move> = None;
    let moves = generate_legal_moves(board);
    let mut i: usize = 0;
    while i < moves.len()
        invariant
            *board == b0,
            wf(b0),
            1 <= depth <= MAX_DEPTH,
            i <= moves@.len(),
            forall|x: Move| #[trigger] moves@.contains(x) <==> legal(b0, x),
            i == 0 ==> best_move.is_none() && best_score == -INF,
            i > 0 ==> best_move.is_some(),
            best_move matches Some(m) ==> legal(b0, m) && best_score == -node_value(
                make_board(b0, m),
                (depth - 1) as nat,
            ),
            forall|j: int|
                0 <= j < i ==> -#[trigger] node_value(make_board(b0, moves@[j]), (depth - 1) as nat)
                    <= best_score,
            best_move matches Some(m) ==> exists|k: int|
                0 <= k < i && #[trigger] moves@[k] == m && forall|j: int|
                    0 <= j < k ==> -#[trigger] node_value(make_board(b0, moves@[j]), (depth - 1) as nat)
                        < best_score,
            legal_list(b0, moves@),
        decreases moves@.len() - i,
    {
        let mv = moves[i];
        let ghost old_best = best_score;
        proof {
            assert(moves@.contains(mv));
            crate::lemmas::lemma_pseudo_facts(b0, mv);
            crate::lemmas::lemma_make_unmake(b0, mv);
            crate::lemmas::lemma_make_wf(b0, mv);
            assert(mv.promotion matches Some(q) ==> q < 6);
            lemma_value_bounds(make_board(b0, mv), (depth - 1) as nat);
        }
        let undo = board.make_move(mv);
        let child = negamax(board, depth - 1, -INF, INF);
        board.unmake_move(mv, undo);
        proof {
            let v = node_value(make_board(b0, mv), (depth - 1) as nat);
            assert(-INF < child < INF);
            assert(v == child);
        }
        let score = -child;
        if score > best_score {
            best_score = score;
            best_move = Some(mv);
            proof {
                assert(moves@[i as int] == mv);
                assert forall|j: int| 0 <= j < i implies -#[trigger] node_value(
                    make_board(b0, moves@[j]),
                    (depth - 1) as nat,
                ) < best_score by {}
            }
        }
        i = i + 1;
    }
    proof {
        if best_move.is_none() {
            assert forall|m: Move| !legal(b0, m) by {
                if legal(b0, m) {
                    assert(moves@.contains(m));
                }
            }
        } else {
            let m = choose|m: Move| legal(b0, m);
            lemma_value_is_best(b0, depth as nat);
            let x = choose|x: Move|
                legal(b0, x) && #[trigger] node_value(make_board(b0, x), (depth - 1) as nat)
                    == -node_value(b0, depth as nat);
            assert(moves@.contains(x));
            let j = choose|j: int| 0 <= j < moves@.len() && moves@[j] == x;
            assert(-node_value(make_board(b0, moves@[j]), (depth - 1) as nat) <= best_score);
            let bm = best_move.unwrap();
            let k = choose|k: int|
                0 <= k < i && #[trigger] moves@[k] == bm && forall|j: int|
                    0 <= j < k ==> -#[trigger] node_value(make_board(b0, moves@[j]), (depth - 1) as nat)
                        < best_score;
            assert(legal_list(b0, moves@) && 0 <= k < moves@.len() && moves@[k] == bm);
        }
    }
    (best_score, best_move)
}

/// Negamax with alpha-beta pruning: the value of the position for the side to move,
/// searching `depth` plies within the window (`alpha`, `beta`). Inside the window the result
/// is the exact value; at or below `alpha` it bounds the value from above; at or above `beta`
/// it bounds it from below.
#[verifier::rlimit(80)]
fn negamax(board: &mut Board, depth: u32, alpha: i32, beta: i32) -> (r: i32)
    requires
        wf(*old(board)),
        depth < MAX_DEPTH,
        -INF <= alpha < beta <= INF,
    ensures
        *final(board) == *old(board),
        -INF <= r <= INF,
        depth == 0 ==> r == evaluate_spec(*old(board)),
        depth > 0 && !has_legal(*old(board)) ==> r == (if in_check_spec(
            *old(board),
            old(board).side_to_move,
        ) {
            -INF + depth
        } else {
            0
        }),
        r <= alpha ==> node_value(*old(board), depth as nat) <= r,
        r >= beta ==> node_value(*old(board), depth as nat) >= r,
        alpha < r < beta ==> node_value(*old(board), depth as nat) == r,
    decreases depth,
{
    if depth == 0 {
        return evaluate(board);
    }
    let ghost b0 = *board;
    let ghost alpha0 = alpha;
    let moves = generate_legal_moves(board);
    if moves.len() == 0 {
        proof {
            assert forall|m: Move| !legal(b0, m) by {
                if legal(b0, m) {
                    assert(moves@.contains(m));
                }
            }
        }
        return if board.in_check(board.side_to_move) {
            -INF + depth as i32
        } else {
            0
        };
    }
    proof {
        assert(moves@.contains(moves@[0]));
        lemma_value_is_best(b0, depth as nat);
    }
    let mut alpha = alpha;
    let mut best: i32 = -INF;
    let mut i: usize = 0;
    while i < moves.len()
        invariant_except_break
            alpha < beta,
            forall|j: int|
                0 <= j < i ==> -#[trigger] node_value(make_board(b0, moves@[j]), (depth - 1) as nat)
                    <= best,
            best > alpha0 ==> exists|j: int|
                0 <= j < i && -#[trigger] node_value(make_board(b0, moves@[j]), (depth - 1) as nat)
                    == best,
        invariant
            *board == b0,
            wf(b0),
            has_legal(b0),
            0 < depth < MAX_DEPTH,
            i <= moves@.len(),
            forall|x: Move| #[trigger] moves@.contains(x) <==> legal(b0, x),
            -INF <= best <= INF,
            -INF <= alpha0 < beta <= INF,
            alpha == if alpha0 > best {
                alpha0
            } else {
                best
            },
            forall|m: Move|
                legal(b0, m) ==> -#[trigger] node_value(make_board(b0, m), (depth - 1) as nat)
                    <= node_value(b0, depth as nat),
        ensures
            -INF <= best <= INF,
            best >= beta ==> node_value(b0, depth as nat) >= best,
            best < beta ==> i == moves@.len(),
            best < beta ==> forall|j: int|
                0 <= j < moves@.len() ==> -#[trigger] node_value(
                    make_board(b0, moves@[j]),
                    (depth - 1) as nat,
                ) <= best,
            best < beta && best > alpha0 ==> exists|j: int|
                0 <= j < moves@.len() && -#[trigger] node_value(
                    make_board(b0, moves@[j]),
                    (depth - 1) as nat,
                ) == best,
        decreases moves@.len() - i,
    {
        let mv = moves[i];
        proof {
            assert(moves@.contains(mv));
            crate::lemmas::lemma_pseudo_facts(b0, mv);
            crate::lemmas::lemma_make_unmake(b0, mv);
            crate::lemmas::lemma_make_wf(b0, mv);
            assert(mv.promotion matches Some(q) ==> q < 6);
        }
        let ghost best_before = best;
        let ghost alpha_before = alpha;
        let undo = board.make_move(mv);
        let score = -negamax(board, depth - 1, -beta, -alpha);
        board.unmake_move(mv, undo);
        let ghost w = -node_value(make_board(b0, mv), (depth - 1) as nat);
        proof {
            assert(score >= beta ==> w >= score);
            assert(score <= alpha_before ==> w <= score);
            assert(alpha_before < score < beta ==> w == score);
        }
        if score > best {
            best = score;
        }
        if score > alpha {
            alpha = score;
        }
        if alpha >= beta {
            proof {
                assert(w >= score);
                assert(legal(b0, mv));
            }
            break;
        }
        proof {
            assert(moves@[i as int] == mv);
            assert(w <= best);
            if best > alpha0 {
                if score > best_before && score > alpha0 {
                    assert(-node_value(make_board(b0, moves@[i as int]), (depth - 1) as nat) == best);
                } else {
                    let j = choose|j: int|
                        0 <= j < i && -#[trigger] node_value(make_board(b0, moves@[j]), (depth - 1) as nat)
                            == best;
                    assert(0 <= j < i + 1);
                }
            }
        }
        i = i + 1;
    }
    proof {
        if best < beta {
            let x = choose|x: Move|
                legal(b0, x) && #[trigger] node_value(make_board(b0, x), (depth - 1) as nat)
                    == -node_value(b0, depth as nat);
            assert(moves@.contains(x));
            let j = choose|j: int| 0 <= j < moves@.len() && moves@[j] == x;
            assert(-node_value(make_board(b0, moves@[j]), (depth - 1) as nat) <= best);
            if best > alpha0 {
                let k = choose|k: int|
                    0 <= k < moves@.len() && -#[trigger] node_value(
                        make_board(b0, moves@[k]),
                        (depth - 1) as nat,
                    ) == best;
                assert(legal(b0, moves@[k]) == moves@.contains(moves@[k]));
            }
        }
    }
    best
}

} // verus!
