use vstd::prelude::*;

verus! {

/// A set of squares, bit `i` standing for square `i` (a1 = 0, h8 = 63).
pub type Bitboard = u64;

pub const FILE_A: Bitboard = 0x0101010101010101;
pub const FILE_H: Bitboard = 0x8080808080808080;

pub const RANK_1: Bitboard = 0x00000000000000FF;
pub const RANK_2: Bitboard = 0x000000000000FF00;
pub const RANK_3: Bitboard = 0x0000000000FF0000;
pub const RANK_4: Bitboard = 0x00000000FF000000;
pub const RANK_5: Bitboard = 0x000000FF00000000;
pub const RANK_6: Bitboard = 0x0000FF0000000000;
pub const RANK_7: Bitboard = 0x00FF000000000000;
pub const RANK_8: Bitboard = 0xFF00000000000000;

pub const CASTLE_WHITE_KING: u8 = 0b0001;
pub const CASTLE_WHITE_QUEEN: u8 = 0b0010;
pub const CASTLE_BLACK_KING: u8 = 0b0100;
pub const CASTLE_BLACK_QUEEN: u8 = 0b1000;

/// Whether square `s` belongs to the set `b`.
pub open spec fn has_bit(b: u64, s: int) -> bool {
    0 <= s < 64 && (b >> (s as u64)) & 1 == 1
}

/// The set holding square `s` alone.
pub open spec fn square_mask(s: int) -> u64 {
    1u64 << (s as u64)
}

/// The set holding the square on file `f` and rank `r`, or no square when that is off the board.
pub open spec fn cell_mask(f: int, r: int) -> u64 {
    if 0 <= f < 8 && 0 <= r < 8 {
        square_mask(r * 8 + f)
    } else {
        0
    }
}

pub open spec fn rank_spec(s: int) -> int {
    s / 8
}

pub open spec fn file_spec(s: int) -> int {
    s % 8
}

pub proof fn lemma_bit_ops()
    ensures
        forall|a: u64, b: u64, i: u64|
            i < 64 ==> (#[trigger] ((a | b) >> i) & 1 == 1) == ((a >> i) & 1 == 1 || (b >> i) & 1
                == 1),
        forall|a: u64, b: u64, i: u64|
            i < 64 ==> (#[trigger] ((a & b) >> i) & 1 == 1) == ((a >> i) & 1 == 1 && (b >> i) & 1
                == 1),
        forall|a: u64, b: u64, i: u64|
            i < 64 ==> (#[trigger] ((a ^ b) >> i) & 1 == 1) == ((a >> i) & 1 == 1 != ((b >> i) & 1
                == 1)),
        forall|a: u64, i: u64| i < 64 ==> (#[trigger] ((!a) >> i) & 1 == 1) == !((a >> i) & 1 == 1),
        forall|s: u64, i: u64|
            s < 64 && i < 64 ==> (#[trigger] ((1u64 << s) >> i) & 1 == 1) == (s == i),
        forall|i: u64| i < 64 ==> !(#[trigger] (0u64 >> i) & 1 == 1),
{
    assert forall|a: u64, b: u64, i: u64|
        i < 64 implies (#[trigger] ((a | b) >> i) & 1 == 1) == ((a >> i) & 1 == 1 || (b >> i) & 1
            == 1) by {
        assert(i < 64 ==> ((((a | b) >> i) & 1 == 1) == ((a >> i) & 1 == 1 || (b >> i) & 1 == 1)))
            by (bit_vector);
    }
    assert forall|a: u64, b: u64, i: u64|
        i < 64 implies (#[trigger] ((a & b) >> i) & 1 == 1) == ((a >> i) & 1 == 1 && (b >> i) & 1
            == 1) by {
        assert(i < 64 ==> ((((a & b) >> i) & 1 == 1) == ((a >> i) & 1 == 1 && (b >> i) & 1 == 1)))
            by (bit_vector);
    }
    assert forall|a: u64, b: u64, i: u64|
        i < 64 implies (#[trigger] ((a ^ b) >> i) & 1 == 1) == ((a >> i) & 1 == 1 != ((b >> i) & 1
            == 1)) by {
        assert(i < 64 ==> ((((a ^ b) >> i) & 1 == 1) == ((a >> i) & 1 == 1 != ((b >> i) & 1
            == 1)))) by (bit_vector);
    }
    assert forall|a: u64, i: u64| i < 64 implies (#[trigger] ((!a) >> i) & 1 == 1) == !((a >> i)
        & 1 == 1) by {
        assert(i < 64 ==> ((((!a) >> i) & 1 == 1) == !((a >> i) & 1 == 1))) by (bit_vector);
    }
    assert forall|s: u64, i: u64| s < 64 && i < 64 implies (#[trigger] ((1u64 << s) >> i) & 1
        == 1) == (s == i) by {
        assert(s < 64 && i < 64 ==> ((((1u64 << s) >> i) & 1 == 1) == (s == i))) by (bit_vector);
    }
    assert forall|i: u64| i < 64 implies !(#[trigger] (0u64 >> i) & 1 == 1) by {
        assert(i < 64 ==> !((0u64 >> i) & 1 == 1)) by (bit_vector);
    }
}

pub proof fn lemma_has_or(a: u64, b: u64, s: int)
    ensures
        has_bit(a | b, s) == (has_bit(a, s) || has_bit(b, s)),
{
    lemma_bit_ops();
    if 0 <= s < 64 {
        let i = s as u64;
        assert((((a | b) >> i) & 1 == 1) == ((a >> i) & 1 == 1 || (b >> i) & 1 == 1));
    }
}

pub proof fn lemma_has_and_not(a: u64, b: u64, s: int)
    ensures
        has_bit(a & !b, s) == (has_bit(a, s) && !has_bit(b, s)),
{
    lemma_bit_ops();
    if 0 <= s < 64 {
        let i = s as u64;
        assert((((a & !b) >> i) & 1 == 1) == ((a >> i) & 1 == 1 && ((!b) >> i) & 1 == 1));
        assert((((!b) >> i) & 1 == 1) == !((b >> i) & 1 == 1));
    }
}

pub proof fn lemma_has_cell(f: int, r: int, s: int)
    ensures
        has_bit(cell_mask(f, r), s) == (0 <= f < 8 && 0 <= r < 8 && s == r * 8 + f),
{
    lemma_bit_ops();
    if 0 <= s < 64 {
        let i = s as u64;
        if 0 <= f < 8 && 0 <= r < 8 {
            let k = (r * 8 + f) as u64;
            assert((((1u64 << k) >> i) & 1 == 1) == (k == i));
        } else {
            assert(!((0u64 >> i) & 1 == 1));
        }
    }
}

/// The set holding `square` alone.
pub fn bb(square: u8) -> (r: Bitboard)
    requires
        square < 64,
    ensures
        r == square_mask(square as int),
{
    1u64 << square
}

/// The rank (row) of a square, 0 for rank 1.
pub fn rank_of(square: u8) -> (r: u8)
    ensures
        r as int == rank_spec(square as int),
{
    square / 8
}

/// The file (column) of a square, 0 for file a.
pub fn file_of(square: u8) -> (r: u8)
    ensures
        r as int == file_spec(square as int),
{
    square % 8
}

/// The 64 squares, in index order.
#[derive(Clone, Copy, Debug, PartialEq, Eq, Structural)]
pub enum Square {
    A1, B1, C1, D1, E1, F1, G1, H1,
    A2, B2, C2, D2, E2, F2, G2, H2,
    A3, B3, C3, D3, E3, F3, G3, H3,
    A4, B4, C4, D4, E4, F4, G4, H4,
    A5, B5, C5, D5, E5, F5, G5, H5,
    A6, B6, C6, D6, E6, F6, G6, H6,
    A7, B7, C7, D7, E7, F7, G7, H7,
    A8, B8, C8, D8, E8, F8, G8, H8,
}

} // verus!
