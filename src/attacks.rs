use vstd::prelude::*;
use crate::bitboard::{Bitboard, cell_mask, has_bit};
use crate::piece::Color;

verus! {

/// Squares a knight on `s` jumps to.
pub open spec fn knight_mask(s: int) -> u64 {
    let f = s % 8;
    let r = s / 8;
    cell_mask(f + 1, r + 2) | cell_mask(f + 2, r + 1) | cell_mask(f + 2, r - 1) | cell_mask(
        f + 1,
        r - 2,
    ) | cell_mask(f - 1, r - 2) | cell_mask(f - 2, r - 1) | cell_mask(f - 2, r + 1) | cell_mask(
        f - 1,
        r + 2,
    )
}

/// Squares next to `s`.
pub open spec fn king_mask(s: int) -> u64 {
    let f = s % 8;
    let r = s / 8;
    cell_mask(f, r + 1) | cell_mask(f, r - 1) | cell_mask(f + 1, r) | cell_mask(f - 1, r)
        | cell_mask(f + 1, r + 1) | cell_mask(f - 1, r + 1) | cell_mask(f + 1, r - 1) | cell_mask(
        f - 1,
        r - 1,
    )
}

/// Squares a pawn of `c` on `s` captures on: one rank forward, one file aside.
pub open spec fn pawn_mask(c: Color, s: int) -> u64 {
    let f = s % 8;
    let r = s / 8;
    let dr = if c == Color::White {
        1int
    } else {
        -1int
    };
    cell_mask(f - 1, r + dr) | cell_mask(f + 1, r + dr)
}

/// The squares a slider on file `f`, rank `r` reaches stepping by (`df`, `dr`), at most `n`
/// steps: each square up to and including the first occupied one, none past the edge.
pub open spec fn ray_mask(f: int, r: int, df: int, dr: int, occ: u64, n: nat) -> u64
    decreases n,
{
    if n == 0 {
        0
    } else {
        let nf = f + df;
        let nr = r + dr;
        if !(0 <= nf < 8 && 0 <= nr < 8) {
            0
        } else if has_bit(occ, nr * 8 + nf) {
            cell_mask(nf, nr)
        } else {
            cell_mask(nf, nr) | ray_mask(nf, nr, df, dr, occ, (n - 1) as nat)
        }
    }
}

/// The ray from square `s`; seven steps cross any board.
pub open spec fn ray_from(s: int, df: int, dr: int, occ: u64) -> u64 {
    ray_mask(s % 8, s / 8, df, dr, occ, 7)
}

pub open spec fn rook_mask(s: int, occ: u64) -> u64 {
    ray_from(s, 0, 1, occ) | ray_from(s, 0, -1, occ) | ray_from(s, 1, 0, occ) | ray_from(
        s,
        -1,
        0,
        occ,
    )
}

pub open spec fn bishop_mask(s: int, occ: u64) -> u64 {
    ray_from(s, 1, 1, occ) | ray_from(s, -1, 1, occ) | ray_from(s, 1, -1, occ) | ray_from(
        s,
        -1,
        -1,
        occ,
    )
}

pub open spec fn queen_mask(s: int, occ: u64) -> u64 {
    rook_mask(s, occ) | bishop_mask(s, occ)
}

/// A square next to `s` differs from it by at most one file and one rank.
pub proof fn lemma_king_mask_near(s: int, t: int)
    requires
        0 <= s < 64,
        has_bit(king_mask(s), t),
    ensures
        0 <= t < 64,
        t != s,
        -1 <= t % 8 - s % 8 <= 1,
        -1 <= t / 8 - s / 8 <= 1,
{
    let f = s % 8;
    let r = s / 8;
    crate::bitboard::lemma_has_or(cell_mask(f, r + 1) | cell_mask(f, r - 1) | cell_mask(f + 1, r)
        | cell_mask(f - 1, r) | cell_mask(f + 1, r + 1) | cell_mask(f - 1, r + 1) | cell_mask(f + 1, r - 1), cell_mask(f - 1, r - 1), t);
    crate::bitboard::lemma_has_or(cell_mask(f, r + 1) | cell_mask(f, r - 1) | cell_mask(f + 1, r)
        | cell_mask(f - 1, r) | cell_mask(f + 1, r + 1) | cell_mask(f - 1, r + 1), cell_mask(f + 1, r - 1), t);
    crate::bitboard::lemma_has_or(cell_mask(f, r + 1) | cell_mask(f, r - 1) | cell_mask(f + 1, r)
        | cell_mask(f - 1, r) | cell_mask(f + 1, r + 1), cell_mask(f - 1, r + 1), t);
    crate::bitboard::lemma_has_or(cell_mask(f, r + 1) | cell_mask(f, r - 1) | cell_mask(f + 1, r)
        | cell_mask(f - 1, r), cell_mask(f + 1, r + 1), t);
    crate::bitboard::lemma_has_or(cell_mask(f, r + 1) | cell_mask(f, r - 1) | cell_mask(f + 1, r),
        cell_mask(f - 1, r), t);
    crate::bitboard::lemma_has_or(cell_mask(f, r + 1) | cell_mask(f, r - 1), cell_mask(f + 1, r), t);
    crate::bitboard::lemma_has_or(cell_mask(f, r + 1), cell_mask(f, r - 1), t);
    crate::bitboard::lemma_has_cell(f, r + 1, t);
    crate::bitboard::lemma_has_cell(f, r - 1, t);
    crate::bitboard::lemma_has_cell(f + 1, r, t);
    crate::bitboard::lemma_has_cell(f - 1, r, t);
    crate::bitboard::lemma_has_cell(f + 1, r + 1, t);
    crate::bitboard::lemma_has_cell(f - 1, r + 1, t);
    crate::bitboard::lemma_has_cell(f + 1, r - 1, t);
    crate::bitboard::lemma_has_cell(f - 1, r - 1, t);
}

proof fn lemma_or_facts()
    by (bit_vector)
    ensures
        forall|a: u64, b: u64, c: u64| #[trigger] ((a | b) | c) == a | (b | c),
        forall|a: u64| #[trigger] (a | 0u64) == a,
        forall|a: u64| #[trigger] (0u64 | a) == a,
{
}

/// The set holding the square on file `f`, rank `r`, empty when that is off the board.
fn cell(f: i8, r: i8) -> (m: Bitboard)
    requires
        -8 <= f <= 16,
        -8 <= r <= 16,
    ensures
        m == cell_mask(f as int, r as int),
{
    if 0 <= f && f < 8 && 0 <= r && r < 8 {
        let s: u8 = (r * 8 + f) as u8;
        1u64 << s
    } else {
        0
    }
}

fn compute_knight_attacks(square: u8) -> (r: Bitboard)
    requires
        square < 64,
    ensures
        r == knight_mask(square as int),
{
    let f = (square % 8) as i8;
    let r = (square / 8) as i8;
    cell(f + 1, r + 2) | cell(f + 2, r + 1) | cell(f + 2, r - 1) | cell(f + 1, r - 2) | cell(
        f - 1,
        r - 2,
    ) | cell(f - 2, r - 1) | cell(f - 2, r + 1) | cell(f - 1, r + 2)
}

fn compute_king_attacks(square: u8) -> (r: Bitboard)
    requires
        square < 64,
    ensures
        r == king_mask(square as int),
{
    let f = (square % 8) as i8;
    let r = (square / 8) as i8;
    cell(f, r + 1) | cell(f, r - 1) | cell(f + 1, r) | cell(f - 1, r) | cell(f + 1, r + 1) | cell(
        f - 1,
        r + 1,
    ) | cell(f + 1, r - 1) | cell(f - 1, r - 1)
}

fn compute_white_pawn_attacks(square: u8) -> (r: Bitboard)
    requires
        square < 64,
    ensures
        r == pawn_mask(Color::White, square as int),
{
    let f = (square % 8) as i8;
    let r = (square / 8) as i8;
    cell(f - 1, r + 1) | cell(f + 1, r + 1)
}

fn compute_black_pawn_attacks(square: u8) -> (r: Bitboard)
    requires
        square < 64,
    ensures
        r == pawn_mask(Color::Black, square as int),
{
    let f = (square % 8) as i8;
    let r = (square / 8) as i8;
    cell(f - 1, r - 1) | cell(f + 1, r - 1)
}

/// Squares a knight on `square` attacks.
pub fn knight_attacks(square: u8) -> (r: Bitboard)
    requires
        square < 64,
    ensures
        r == knight_mask(square as int),
{
    compute_knight_attacks(square)
}

/// Squares a king on `square` attacks.
pub fn king_attacks(square: u8) -> (r: Bitboard)
    requires
        square < 64,
    ensures
        r == king_mask(square as int),
{
    compute_king_attacks(square)
}

/// Squares a white pawn on `square` attacks.
pub fn white_pawn_attacks(square: u8) -> (r: Bitboard)
    requires
        square < 64,
    ensures
        r == pawn_mask(Color::White, square as int),
{
    compute_white_pawn_attacks(square)
}

/// Squares a black pawn on `square` attacks.
pub fn black_pawn_attacks(square: u8) -> (r: Bitboard)
    requires
        square < 64,
    ensures
        r == pawn_mask(Color::Black, square as int),
{
    compute_black_pawn_attacks(square)
}

/// Casts one ray from `square` by (`df`, `dr`) per step, stopping at the edge or after the
/// first occupied square, which is included.
fn sliding_ray(square: u8, occupied: Bitboard, df: i8, dr: i8) -> (r: Bitboard)
    requires
        square < 64,
        -1 <= df <= 1,
        -1 <= dr <= 1,
    ensures
        r == ray_from(square as int, df as int, dr as int, occupied),
{
    let mut attacks: u64 = 0;
    let mut f: i8 = (square % 8) as i8;
    let mut r: i8 = (square / 8) as i8;
    let mut n: u8 = 7;
    proof {
        lemma_or_facts();
    }
    loop
        invariant_except_break
            ray_from(square as int, df as int, dr as int, occupied) == attacks | ray_mask(
                f as int,
                r as int,
                df as int,
                dr as int,
                occupied,
                n as nat,
            ),
        invariant
            0 <= f < 8,
            0 <= r < 8,
            n <= 7,
            -1 <= df <= 1,
            -1 <= dr <= 1,
        ensures
            attacks == ray_from(square as int, df as int, dr as int, occupied),
        decreases n,
    {
        proof {
            lemma_or_facts();
        }
        if n == 0 {
            assert(ray_mask(f as int, r as int, df as int, dr as int, occupied, 0) == 0);
            break;
        }
        let nf = f + df;
        let nr = r + dr;
        if !(0 <= nf && nf < 8 && 0 <= nr && nr < 8) {
            assert(ray_mask(f as int, r as int, df as int, dr as int, occupied, n as nat) == 0);
            break;
        }
        let s: u64 = (nr * 8 + nf) as u64;
        let m = 1u64 << s;
        assert(m == cell_mask(nf as int, nr as int));
        if (occupied >> s) & 1 == 1 {
            assert(ray_mask(f as int, r as int, df as int, dr as int, occupied, n as nat) == m);
            attacks = attacks | m;
            break;
        }
        assert(ray_mask(f as int, r as int, df as int, dr as int, occupied, n as nat) == m
            | ray_mask(nf as int, nr as int, df as int, dr as int, occupied, (n - 1) as nat));
        attacks = attacks | m;
        f = nf;
        r = nr;
        n = n - 1;
    }
    attacks
}

/// Squares a rook on `square` attacks, given the occupied squares.
pub fn rook_attacks(square: u8, occupied: Bitboard) -> (r: Bitboard)
    requires
        square < 64,
    ensures
        r == rook_mask(square as int, occupied),
{
    sliding_ray(square, occupied, 0, 1) | sliding_ray(square, occupied, 0, -1) | sliding_ray(
        square,
        occupied,
        1,
        0,
    ) | sliding_ray(square, occupied, -1, 0)
}

/// Squares a bishop on `square` attacks, given the occupied squares.
pub fn bishop_attacks(square: u8, occupied: Bitboard) -> (r: Bitboard)
    requires
        square < 64,
    ensures
        r == bishop_mask(square as int, occupied),
{
    sliding_ray(square, occupied, 1, 1) | sliding_ray(square, occupied, -1, 1) | sliding_ray(
        square,
        occupied,
        1,
        -1,
    ) | sliding_ray(square, occupied, -1, -1)
}

/// Squares a queen on `square` attacks: those of a rook and of a bishop there.
pub fn queen_attacks(square: u8, occupied: Bitboard) -> (r: Bitboard)
    requires
        square < 64,
    ensures
        r == queen_mask(square as int, occupied),
{
    rook_attacks(square, occupied) | bishop_attacks(square, occupied)
}

} // verus!
