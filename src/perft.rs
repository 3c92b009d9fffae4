use vstd::prelude::*;
use crate::board::{make_board, wf, Board};
use crate::movegen::{generate_legal_moves, legal};
use crate::moves::Move;

verus! {

/// The legal moves of `b`, as a set.
pub open spec fn legal_set(b: Board) -> Set<Move> {
    Set::new(|m: Move| legal(b, m))
}

/// The number of move codes: origin, destination, and no promotion or a piece index below 6.
pub open spec fn move_code_count() -> int {
    28672
}

/// The move with code `k`.
pub open spec fn nth_move(k: int) -> Move {
    Move {
        from: (k / 448) as u8,
        to: ((k / 7) % 64) as u8,
        promotion: if k % 7 == 0 {
            None
        } else {
            Some((k % 7 - 1) as u8)
        },
    }
}

/// The code of a move: origin, destination and promotion packed in one number.
pub open spec fn move_code(m: Move) -> int {
    m.from * 448 + m.to * 7 + match m.promotion {
        None => 0,
        Some(q) => q + 1,
    }
}

/// The leaf counts at depth `depth - 1` below each legal move of `b` with a code below `k`,
/// summed.
pub open spec fn perft_upto(b: Board, depth: nat, k: int) -> nat
    decreases depth, k,
{
    if depth == 0 || k <= 0 {
        0
    } else {
        perft_upto(b, depth, k - 1) + if legal(b, nth_move(k - 1)) {
            perft_spec(make_board(b, nth_move(k - 1)), (depth - 1) as nat)
        } else {
            0
        }
    }
}

/// The number of move sequences of exactly `depth` legal moves from `b`.
pub open spec fn perft_spec(b: Board, depth: nat) -> nat
    decreases depth, move_code_count() + 1,
{
    if depth == 0 {
        1
    } else {
        perft_upto(b, depth, move_code_count())
    }
}

/// The legal moves of `b` with a code below `k`.
pub open spec fn legal_below(b: Board, k: int) -> Set<Move> {
    Set::new(|m: Move| legal(b, m) && move_code(m) < k)
}

/// A legal move names at most a queen, and its code names it.
pub proof fn lemma_legal_code(b: Board, m: Move)
    requires
        legal(b, m),
    ensures
        0 <= move_code(m) < move_code_count(),
        nth_move(move_code(m)) == m,
{
    assert(m.from < 64 && m.to < 64);
    assert(m.promotion matches Some(q) ==> q <= 4);
    let p: int = match m.promotion {
        None => 0,
        Some(q) => q + 1,
    };
    let k = move_code(m);
    assert(0 <= p < 7);
    assert(k == m.from * 448 + m.to * 7 + p);
    assert(k == (m.from * 64 + m.to) * 7 + p) by (nonlinear_arith)
        requires
            k == m.from * 448 + m.to * 7 + p,
    ;
    vstd::arithmetic::div_mod::lemma_fundamental_div_mod_converse(k, 7, m.from * 64 + m.to, p);
    let k7 = m.from * 64 + m.to;
    vstd::arithmetic::div_mod::lemma_fundamental_div_mod_converse(k7, 64, m.from as int, m.to as int);
    assert(k == m.from * 448 + (m.to * 7 + p));
    vstd::arithmetic::div_mod::lemma_fundamental_div_mod_converse(k, 448, m.from as int, m.to * 7 + p);
    assert(k < 28672);
}

/// A move code whose move is legal is that move's code.
proof fn lemma_code_of_nth(b: Board, k: int)
    requires
        0 <= k < move_code_count(),
        legal(b, nth_move(k)),
    ensures
        move_code(nth_move(k)) == k,
{
    let m = nth_move(k);
    lemma_legal_code(b, m);
    assert(k == 7 * (k / 7) + k % 7) by {
        vstd::arithmetic::div_mod::lemma_fundamental_div_mod(k, 7);
    }
    let k7 = k / 7;
    assert(k7 == 64 * (k7 / 64) + k7 % 64) by {
        vstd::arithmetic::div_mod::lemma_fundamental_div_mod(k7, 64);
    }
    assert(k7 / 64 == k / 448) by {
        vstd::arithmetic::div_mod::lemma_div_denominator(k, 7, 64);
    }
    assert(0 <= k7 % 64 < 64);
    assert(k / 448 < 64);
    assert(m.from == k / 448);
    assert(m.to == k7 % 64);
    assert(k == (k / 448) * 448 + (k7 % 64) * 7 + k % 7) by (nonlinear_arith)
        requires
            k == 7 * k7 + k % 7,
            k7 == 64 * (k7 / 64) + k7 % 64,
            k7 / 64 == k / 448,
    ;
}

/// Folding the child counts over the legal moves with a code below `k`.
proof fn lemma_fold_upto(b: Board, depth: nat, k: int, g: spec_fn(nat, Move) -> nat)
    requires
        depth > 0,
        0 <= k <= move_code_count(),
        g == (|acc: nat, m: Move| acc + perft_spec(make_board(b, m), (depth - 1) as nat)),
    ensures
        legal_below(b, k).finite(),
        legal_below(b, k).fold(0nat, g) == perft_upto(b, depth, k),
    decreases k,
{
    assert(vstd::set::fold::is_fun_commutative(g));
    if k == 0 {
        assert forall|m: Move| !legal_below(b, 0).contains(m) by {
            if legal(b, m) {
                lemma_legal_code(b, m);
            }
        }
        assert(legal_below(b, 0) =~= Set::empty());
        vstd::set::fold::lemma_fold_empty(0nat, g);
    } else {
        lemma_fold_upto(b, depth, k - 1, g);
        let x = nth_move(k - 1);
        if legal(b, x) {
            lemma_code_of_nth(b, k - 1);
            assert(legal_below(b, k) =~= legal_below(b, k - 1).insert(x)) by {
                assert forall|m: Move| legal_below(b, k).contains(m) implies legal_below(
                    b,
                    k - 1,
                ).insert(x).contains(m) by {
                    lemma_legal_code(b, m);
                }
            }
            vstd::set::fold::lemma_fold_insert(legal_below(b, k - 1), 0nat, g, x);
        } else {
            assert(legal_below(b, k) =~= legal_below(b, k - 1)) by {
                assert forall|m: Move| legal_below(b, k).contains(m) implies legal_below(
                    b,
                    k - 1,
                ).contains(m) by {
                    lemma_legal_code(b, m);
                }
            }
        }
    }
}

pub open spec fn saturate(n: nat) -> u64 {
    if n > u64::MAX {
        u64::MAX
    } else {
        n as u64
    }
}

/// Counts the move sequences of exactly `depth` legal moves (the leaves of the legal-move
/// tree), saturating at `u64::MAX`. The board is given back as it was.
pub fn perft(board: &mut Board, depth: u32) -> (r: u64)
    requires
        wf(*old(board)),
    ensures
        *final(board) == *old(board),
        r == saturate(perft_spec(*old(board), depth as nat)),
    decreases depth,
{
    if depth == 0 {
        return 1;
    }
    let ghost b0 = *board;
    let ghost g = |acc: nat, m: Move| acc + perft_spec(make_board(b0, m), (depth - 1) as nat);
    let mut nodes: u64 = 0;
    let moves = generate_legal_moves(board);
    let mut i: usize = 0;
    let ghost mut done: Set<Move> = Set::empty();
    proof {
        assert(vstd::set::fold::is_fun_commutative(g));
        vstd::set::fold::lemma_fold_empty(0nat, g);
    }
    while i < moves.len()
        invariant
            *board == b0,
            wf(b0),
            depth > 0,
            i <= moves@.len(),
            forall|x: Move| #[trigger] moves@.contains(x) <==> legal(b0, x),
            moves@.no_duplicates(),
            done.finite(),
            forall|x: Move| #[trigger] done.contains(x) <==> exists|j: int| 0 <= j < i && moves@[j] == x,
            vstd::set::fold::is_fun_commutative(g),
            g == (|acc: nat, m: Move| acc + perft_spec(make_board(b0, m), (depth - 1) as nat)),
            nodes == saturate(done.fold(0nat, g)),
        decreases moves@.len() - i,
    {
        let mv = moves[i];
        proof {
            assert(moves@.contains(mv));
            crate::lemmas::lemma_pseudo_facts(b0, mv);
            crate::lemmas::lemma_make_unmake(b0, mv);
            crate::lemmas::lemma_make_wf(b0, mv);
            assert(mv.promotion matches Some(q) ==> q < 6);
            assert(!done.contains(mv)) by {
                if done.contains(mv) {
                    let j = choose|j: int| 0 <= j < i && moves@[j] == mv;
                    assert(moves@[i as int] == mv);
                }
            }
            vstd::set::fold::lemma_fold_insert(done, 0nat, g, mv);
        }
        let child = if depth == 1 {
            1
        } else {
            let undo = board.make_move(mv);
            let c = perft(board, depth - 1);
            board.unmake_move(mv, undo);
            c
        };
        nodes = nodes.saturating_add(child);
        proof {
            let ghost old_done = done;
            done = done.insert(mv);
            assert forall|x: Move| #[trigger] done.contains(x) <==> exists|j: int|
                0 <= j < i + 1 && moves@[j] == x by {
                if x == mv {
                    assert(moves@[i as int] == x);
                }
                if exists|j: int| 0 <= j < i + 1 && moves@[j] == x {
                    let j = choose|j: int| 0 <= j < i + 1 && moves@[j] == x;
                    if j < i {
                        assert(old_done.contains(x));
                    }
                }
            }
        }
        i = i + 1;
    }
    proof {
        assert(done =~= legal_set(b0)) by {
            assert forall|x: Move| done.contains(x) <==> legal_set(b0).contains(x) by {
                if done.contains(x) {
                    let j = choose|j: int| 0 <= j < i && moves@[j] == x;
                    assert(moves@.contains(x));
                }
                if legal(b0, x) {
                    assert(moves@.contains(x));
                    let j = choose|j: int| 0 <= j < moves@.len() && moves@[j] == x;
                    assert(moves@[j] == x);
                }
            }
        }
        lemma_fold_upto(b0, depth as nat, move_code_count(), g);
        assert(legal_below(b0, move_code_count()) =~= legal_set(b0)) by {
            assert forall|m: Move| legal_set(b0).contains(m) implies legal_below(
                b0,
                move_code_count(),
            ).contains(m) by {
                lemma_legal_code(b0, m);
            }
        }
    }
    nodes
}

} // verus!
