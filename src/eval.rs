use vstd::prelude::*;
use crate::bitboard::has_bit;
use crate::board::Board;
use crate::piece::{color_index, opposite_spec, Color};

verus! {

pub const PAWN: i32 = 100;
pub const KNIGHT: i32 = 320;
pub const BISHOP: i32 = 330;
pub const ROOK: i32 = 500;
pub const QUEEN: i32 = 900;

/// The number of squares below `n` in `x`.
pub open spec fn count_below(x: u64, n: nat) -> nat
    decreases n,
{
    if n == 0 {
        0
    } else {
        count_below(x, (n - 1) as nat) + if has_bit(x, n - 1) {
            1nat
        } else {
            0nat
        }
    }
}

/// The number of squares in `x`.
pub open spec fn popcount(x: u64) -> nat {
    count_below(x, 64)
}

/// The material of color `c`: pawns 100, knights 320, bishops 330, rooks 500, queens 900.
pub open spec fn material_spec(b: Board, c: Color) -> int {
    let a = b.pieces[color_index(c)];
    (popcount(a[0]) * 100 + popcount(a[1]) * 320 + popcount(a[2]) * 330 + popcount(a[3]) * 500
        + popcount(a[4]) * 900) as int
}

/// The material balance from the side to move's point of view.
pub open spec fn evaluate_spec(b: Board) -> int {
    material_spec(b, b.side_to_move) - material_spec(b, opposite_spec(b.side_to_move))
}

pub proof fn lemma_count_below_bound(x: u64, n: nat)
    ensures
        count_below(x, n) <= n,
    decreases n,
{
    if n > 0 {
        lemma_count_below_bound(x, (n - 1) as nat);
    }
}

/// The material balance never exceeds a full board of queens' worth of material.
pub proof fn lemma_evaluate_bounds(b: Board)
    ensures
        -137600 <= evaluate_spec(b) <= 137600,
{
    let w = b.pieces[color_index(b.side_to_move)];
    let k = b.pieces[color_index(opposite_spec(b.side_to_move))];
    lemma_count_below_bound(w[0], 64);
    lemma_count_below_bound(w[1], 64);
    lemma_count_below_bound(w[2], 64);
    lemma_count_below_bound(w[3], 64);
    lemma_count_below_bound(w[4], 64);
    lemma_count_below_bound(k[0], 64);
    lemma_count_below_bound(k[1], 64);
    lemma_count_below_bound(k[2], 64);
    lemma_count_below_bound(k[3], 64);
    lemma_count_below_bound(k[4], 64);
}

/// The number of squares in `x`.
fn count_squares(x: u64) -> (r: i32)
    ensures
        r as int == popcount(x),
        0 <= r <= 64,
{
    let mut n: i32 = 0;
    let mut i: u64 = 0;
    while i < 64
        invariant
            i <= 64,
            n as int == count_below(x, i as nat),
            0 <= n <= i,
        decreases 64 - i,
    {
        if (x >> i) & 1 == 1 {
            n = n + 1;
        }
        i = i + 1;
    }
    n
}

fn material_score(board: &Board, color: Color) -> (r: i32)
    ensures
        r as int == material_spec(*board, color),
        0 <= r <= 137600,
{
    let pieces = board.pieces[color.index()];
    count_squares(pieces[0]) * PAWN + count_squares(pieces[1]) * KNIGHT + count_squares(pieces[2])
        * BISHOP + count_squares(pieces[3]) * ROOK + count_squares(pieces[4]) * QUEEN
}

/// The material balance, positive when the side to move is ahead.
pub fn evaluate(board: &Board) -> (r: i32)
    ensures
        r as int == evaluate_spec(*board),
        -137600 <= r <= 137600,
{
    let white = material_score(board, Color::White);
    let black = material_score(board, Color::Black);
    match board.side_to_move {
        Color::White => white - black,
        Color::Black => black - white,
    }
}

} // verus!
