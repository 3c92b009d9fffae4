use vstd::prelude::*;
use crate::attacks::{
    bishop_attacks, bishop_mask, king_attacks, king_mask, knight_attacks, knight_mask, pawn_mask,
    rook_attacks, rook_mask, black_pawn_attacks, white_pawn_attacks,
};
use crate::bitboard::{
    bb, has_bit, square_mask, Bitboard, CASTLE_BLACK_KING, CASTLE_BLACK_QUEEN, CASTLE_WHITE_KING,
    CASTLE_WHITE_QUEEN, RANK_2, RANK_7,
};
use crate::moves::Move;
use crate::piece::{
    color_index, color_of_index, index_to_piece, opposite_spec, piece_index, piece_of_index,
    Color, Piece,
};
use crate::undo::Undo;

verus! {

broadcast use vstd::array::group_array_axioms;

/// A position: one set of squares per color and piece kind (`pieces[color][piece]`), the side
/// to move, the union of all pieces, the castling rights (one bit each for white king side,
/// white queen side, black king side, black queen side) and the square a pawn passed over on
/// the move just made, if it advanced two ranks.
#[derive(Clone, Copy, Debug)]
pub struct Board {
    pub pieces: [[Bitboard; 6]; 2],
    pub side_to_move: Color,
    pub occupied: Bitboard,
    pub castling_rights: u8,
    pub en_passant_square: Option<u8>,
}

/// The union of one color's six piece sets.
pub open spec fn color_union(row: [u64; 6]) -> u64 {
    row[0] | row[1] | row[2] | row[3] | row[4] | row[5]
}

/// The union of all twelve piece sets.
pub open spec fn all_union(pieces: [[u64; 6]; 2]) -> u64 {
    color_union(pieces[0]) | color_union(pieces[1])
}

/// The board with `pieces[c][p]` replaced by `v`.
pub open spec fn with_bits(b: Board, c: int, p: int, v: u64) -> Board {
    Board {
        pieces: vstd::array::spec_array_update(
            b.pieces,
            c,
            vstd::array::spec_array_update(b.pieces[c], p, v),
        ),
        side_to_move: b.side_to_move,
        occupied: b.occupied,
        castling_rights: b.castling_rights,
        en_passant_square: b.en_passant_square,
    }
}

/// The board with its occupancy recomputed from the piece sets.
pub open spec fn with_occupancy(b: Board) -> Board {
    Board {
        pieces: b.pieces,
        side_to_move: b.side_to_move,
        occupied: all_union(b.pieces),
        castling_rights: b.castling_rights,
        en_passant_square: b.en_passant_square,
    }
}

/// The first piece index at or after `k` whose set in `row` holds `sq`; 6 when there is none.
pub open spec fn first_at(row: [u64; 6], sq: int, k: int) -> int
    decreases 6 - k,
{
    if k < 0 || k >= 6 {
        6
    } else if has_bit(row[k], sq) {
        k
    } else {
        first_at(row, sq, k + 1)
    }
}

/// The first (color, piece) at or after table position `k` (color-major) on `sq`.
pub open spec fn scan_at(b: Board, sq: int, k: int) -> Option<(Color, Piece)>
    decreases 12 - k,
{
    if k < 0 || k >= 12 {
        None
    } else if has_bit(b.pieces[k / 6][k % 6], sq) {
        Some((color_of_index(k / 6), piece_of_index(k % 6)))
    } else {
        scan_at(b, sq, k + 1)
    }
}

/// What stands on `sq`: the first color and piece kind, in table order, whose set holds it.
pub open spec fn piece_at_spec(b: Board, sq: int) -> Option<(Color, Piece)> {
    scan_at(b, sq, 0)
}

/// Whether the pieces of `by` attack `sq`, with sliders blocked by the board's occupancy.
pub open spec fn attacked_spec(b: Board, sq: int, by: Color) -> bool {
    let a = b.pieces[color_index(by)];
    let occ = b.occupied;
    (pawn_mask(opposite_spec(by), sq) & a[0]) != 0 || (knight_mask(sq) & a[1]) != 0 || (
    bishop_mask(sq, occ) & (a[2] | a[4])) != 0 || (rook_mask(sq, occ) & (a[3] | a[4])) != 0 || (
    king_mask(sq) & a[5]) != 0
}

/// Whether the king of `c` stands attacked; a side without a king is never in check.
pub open spec fn in_check_spec(b: Board, c: Color) -> bool {
    let k = b.pieces[color_index(c)][5];
    k != 0 && attacked_spec(b, k.trailing_zeros() as int, opposite_spec(c))
}

/// The square an en-passant capture target lies on, if any, leaves room for the captured
/// pawn one rank either side.
pub open spec fn ep_in_range(ep: Option<u8>) -> bool {
    match ep {
        Some(e) => 8 <= e < 56,
        None => true,
    }
}

/// No square holds two pieces.
pub open spec fn disjoint_pieces(b: Board) -> bool {
    forall|ca: int, pa: int, cb: int, pb: int, s: int|
        0 <= ca < 2 && 0 <= pa < 6 && 0 <= cb < 2 && 0 <= pb < 6 && !(ca == cb && pa == pb)
            && #[trigger] has_bit(b.pieces[ca][pa], s) ==> !#[trigger] has_bit(b.pieces[cb][pb], s)
}

/// The en-passant square, if any, is empty, and the pawn that passed over it stands one rank
/// beyond it.
pub open spec fn en_passant_consistent(b: Board) -> bool {
    match b.en_passant_square {
        Some(e) => 8 <= e < 56 && !has_bit(b.occupied, e as int) && has_bit(
            b.pieces[color_index(opposite_spec(b.side_to_move))][0],
            ep_victim(b.side_to_move, e as int),
        ),
        None => true,
    }
}

/// A well-formed position: the occupancy is the union of the piece sets, no square holds
/// two pieces, and the en-passant square is consistent.
pub open spec fn wf(b: Board) -> bool {
    b.occupied == all_union(b.pieces) && disjoint_pieces(b) && en_passant_consistent(b)
}

pub open spec fn start_board() -> Board {
    Board {
        pieces: [
            [RANK_2, square_mask(1) | square_mask(6), square_mask(2) | square_mask(5), square_mask(0)
                | square_mask(7), square_mask(3), square_mask(4)],
            [RANK_7, square_mask(57) | square_mask(62), square_mask(58) | square_mask(61),
                square_mask(56) | square_mask(63), square_mask(59), square_mask(60)],
        ],
        side_to_move: Color::White,
        occupied: 0,
        castling_rights: 15,
        en_passant_square: None,
    }
}


/// The castling right a rook standing on corner `s` carries, or 0 off the corners.
pub open spec fn corner_right(s: int) -> u8 {
    if s == 0 {
        CASTLE_WHITE_QUEEN
    } else if s == 7 {
        CASTLE_WHITE_KING
    } else if s == 56 {
        CASTLE_BLACK_QUEEN
    } else if s == 63 {
        CASTLE_BLACK_KING
    } else {
        0
    }
}

/// Both castling rights of color `c`.
pub open spec fn color_rights(c: Color) -> u8 {
    if c == Color::White {
        (CASTLE_WHITE_KING | CASTLE_WHITE_QUEEN) as u8
    } else {
        (CASTLE_BLACK_KING | CASTLE_BLACK_QUEEN) as u8
    }
}

pub open spec fn abs_diff(a: int, b: int) -> int {
    if a > b {
        a - b
    } else {
        b - a
    }
}

/// For a king of `c` castling onto `to`: the rook's corner and the square it lands on.
pub open spec fn castle_rook(c: Color, to: int) -> Option<(int, int)> {
    if c == Color::White && to == 6 {
        Some((7, 5))
    } else if c == Color::White && to == 2 {
        Some((0, 3))
    } else if c == Color::Black && to == 62 {
        Some((63, 61))
    } else if c == Color::Black && to == 58 {
        Some((56, 59))
    } else {
        None
    }
}

/// The square of the pawn taken en passant by a pawn of `c` landing on `to`.
pub open spec fn ep_victim(c: Color, to: int) -> int {
    if c == Color::White {
        to - 8
    } else {
        to + 8
    }
}

/// The index of the moving piece: the first kind of the side to move on the origin square.
pub open spec fn moved_index(b: Board, mv: Move) -> int {
    first_at(b.pieces[color_index(b.side_to_move)], mv.from as int, 0)
}

/// Whether `mv` is a pawn landing on the en-passant square.
pub open spec fn is_ep_capture(b: Board, mv: Move) -> bool {
    moved_index(b, mv) == 0 && b.en_passant_square == Some(mv.to)
}

/// The index of the enemy piece standing on the destination, 6 if none.
pub open spec fn victim_index(b: Board, mv: Move) -> int {
    first_at(b.pieces[color_index(opposite_spec(b.side_to_move))], mv.to as int, 0)
}

/// The piece `mv` captures: the en-passant pawn, else the enemy piece on the destination.
pub open spec fn make_captured(b: Board, mv: Move) -> Option<(Color, Piece)> {
    let e = opposite_spec(b.side_to_move);
    if is_ep_capture(b, mv) {
        Some((e, Piece::Pawn))
    } else if victim_index(b, mv) < 6 {
        Some((e, piece_of_index(victim_index(b, mv))))
    } else {
        None
    }
}

/// The moving piece taken from the origin and put on the destination.
pub open spec fn stage_lift(b: Board, mv: Move) -> Board {
    let c = color_index(b.side_to_move);
    let pm = moved_index(b, mv);
    with_bits(b, c, pm, (b.pieces[c][pm] ^ square_mask(mv.from as int)) | square_mask(mv.to as int))
}

/// Then the enemy piece on the destination removed.
pub open spec fn stage_capture(b: Board, mv: Move) -> Board {
    let s = stage_lift(b, mv);
    let e = color_index(opposite_spec(b.side_to_move));
    let pc = victim_index(b, mv);
    if pc < 6 {
        with_bits(s, e, pc, s.pieces[e][pc] ^ square_mask(mv.to as int))
    } else {
        s
    }
}

/// Then the pawn taken en passant removed from behind the destination.
pub open spec fn stage_en_passant(b: Board, mv: Move) -> Board {
    let s = stage_capture(b, mv);
    let e = color_index(opposite_spec(b.side_to_move));
    if is_ep_capture(b, mv) {
        with_bits(s, e, 0, s.pieces[e][0] ^ square_mask(ep_victim(b.side_to_move, mv.to as int)))
    } else {
        s
    }
}

/// Then a promoting pawn replaced by the piece it promotes to, and the occupancy recomputed.
pub open spec fn stage_promote(b: Board, mv: Move) -> Board {
    let s = stage_en_passant(b, mv);
    let c = color_index(b.side_to_move);
    let t = match mv.promotion {
        Some(q) => {
            let s1 = with_bits(s, c, 0, s.pieces[c][0] ^ square_mask(mv.to as int));
            with_bits(s1, c, q as int, s1.pieces[c][q as int] | square_mask(mv.to as int))
        },
        None => s,
    };
    with_occupancy(t)
}

/// Then, for a king moving two files, its rook brought round.
pub open spec fn stage_castle(b: Board, mv: Move) -> Board {
    let s = stage_promote(b, mv);
    let c = color_index(b.side_to_move);
    if moved_index(b, mv) == 5 && abs_diff(mv.from as int, mv.to as int) == 2 {
        let s2 = match castle_rook(b.side_to_move, mv.to as int) {
            Some((rf, rt)) => with_bits(
                s,
                c,
                3,
                (s.pieces[c][3] ^ square_mask(rf)) | square_mask(rt),
            ),
            None => s,
        };
        with_occupancy(s2)
    } else {
        s
    }
}

/// The en-passant square after `mv`: the square passed over by a pawn advancing two ranks.
pub open spec fn next_en_passant(b: Board, mv: Move) -> Option<u8> {
    if moved_index(b, mv) == 0 && abs_diff(mv.from as int, mv.to as int) == 16 {
        Some(((mv.from + mv.to) / 2) as u8)
    } else {
        None
    }
}

/// The castling rights after `mv`: a king move drops both of its color's rights, a rook
/// leaving its corner drops that corner's right, and a capture on a corner drops that
/// corner's right.
pub open spec fn next_rights(b: Board, mv: Move) -> u8 {
    let r0 = b.castling_rights;
    let pm = moved_index(b, mv);
    let r1 = if pm == 5 {
        r0 & !color_rights(b.side_to_move)
    } else if pm == 3 && corner_right(mv.from as int) != 0 {
        r0 & !corner_right(mv.from as int)
    } else {
        r0
    };
    if make_captured(b, mv).is_some() && corner_right(mv.to as int) != 0 {
        r1 & !corner_right(mv.to as int)
    } else {
        r1
    }
}

/// The board after `mv`.
pub open spec fn make_board(b: Board, mv: Move) -> Board {
    let s = stage_castle(b, mv);
    Board {
        pieces: s.pieces,
        side_to_move: opposite_spec(b.side_to_move),
        occupied: s.occupied,
        castling_rights: next_rights(b, mv),
        en_passant_square: next_en_passant(b, mv),
    }
}

/// The record `make_move` hands back for `mv`.
pub open spec fn make_undo(b: Board, mv: Move) -> Undo {
    Undo {
        captured: make_captured(b, mv),
        side_to_move: b.side_to_move,
        castling_rights: b.castling_rights,
        en_passant_square: b.en_passant_square,
    }
}

/// Whether `b` after `mv`, taken back with `u`, shows the king of the mover back on the
/// destination having moved two files: a castle to undo.
pub open spec fn undo_is_castle(b: Board, mv: Move, u: Undo) -> bool {
    abs_diff(mv.from as int, mv.to as int) == 2 && has_bit(
        b.pieces[color_index(u.side_to_move)][5],
        mv.to as int,
    )
}

/// The board `b` with the moving piece (or the promoted piece, as a pawn) taken back.
pub open spec fn unmake_retreat(b: Board, mv: Move, u: Undo) -> Board {
    let c = color_index(u.side_to_move);
    match mv.promotion {
        Some(q) => {
            let t = with_bits(b, c, q as int, b.pieces[c][q as int] ^ square_mask(mv.to as int));
            with_bits(t, c, 0, t.pieces[c][0] | square_mask(mv.from as int))
        },
        None => {
            let k = first_at(b.pieces[c], mv.to as int, 0);
            if k < 6 {
                with_bits(
                    b,
                    c,
                    k,
                    (b.pieces[c][k] ^ square_mask(mv.to as int)) | square_mask(mv.from as int),
                )
            } else {
                b
            }
        },
    }
}

/// The board after `unmake_move(mv, u)` on `b`.
pub open spec fn unmake_board(b: Board, mv: Move, u: Undo) -> Board {
    let c = color_index(u.side_to_move);
    let s0 = Board {
        pieces: b.pieces,
        side_to_move: u.side_to_move,
        occupied: b.occupied,
        castling_rights: u.castling_rights,
        en_passant_square: u.en_passant_square,
    };
    let s = if undo_is_castle(b, mv, u) {
        let s1 = with_bits(
            s0,
            c,
            5,
            (s0.pieces[c][5] ^ square_mask(mv.to as int)) | square_mask(mv.from as int),
        );
        match castle_rook(u.side_to_move, mv.to as int) {
            Some((rf, rt)) => with_bits(
                s1,
                c,
                3,
                (s1.pieces[c][3] ^ square_mask(rt)) | square_mask(rf),
            ),
            None => s1,
        }
    } else {
        let s1 = unmake_retreat(s0, mv, u);
        let was_ep = has_bit(s1.pieces[c][0], mv.from as int) && (match u.captured {
            Some((_, p)) => p == Piece::Pawn,
            None => false,
        }) && u.en_passant_square == Some(mv.to);
        match u.captured {
            Some((cc, pp)) => {
                let sq = if was_ep {
                    ep_victim(u.side_to_move, mv.to as int)
                } else {
                    mv.to as int
                };
                with_bits(
                    s1,
                    color_index(cc),
                    piece_index(pp),
                    s1.pieces[color_index(cc)][piece_index(pp)] | square_mask(sq),
                )
            },
            None => s1,
        }
    };
    with_occupancy(s)
}

/// `a` holds no right that `b` lacks.
pub open spec fn rights_within(a: u8, b: u8) -> bool {
    a & !b == 0
}

pub proof fn lemma_rights_shrink()
    by (bit_vector)
    ensures
        forall|a: u8, m: u8| #[trigger] rights_within(a & !m, a),
        forall|a: u8| #[trigger] rights_within(a, a),
        forall|a: u8, b: u8, c: u8|
            #[trigger] rights_within(a, b) && #[trigger] rights_within(b, c) ==> rights_within(a, c),
{
}

/// The first index at or after 0 whose set in `row` holds `sq`; 6 if none.
fn find_piece(row: &[Bitboard; 6], sq: u8) -> (r: usize)
    requires
        sq < 64,
    ensures
        r as int == first_at(*row, sq as int, 0),
        r <= 6,
{
    let mut k: usize = 0;
    while k < 6
        invariant
            k <= 6,
            sq < 64,
            first_at(*row, sq as int, 0) == first_at(*row, sq as int, k as int),
        decreases 6 - k,
    {
        if (row[k] >> (sq as u64)) & 1 == 1 {
            return k;
        }
        k = k + 1;
    }
    6
}

fn corner_right_of(s: u8) -> (r: u8)
    ensures
        r == corner_right(s as int),
{
    match s {
        0 => CASTLE_WHITE_QUEEN,
        7 => CASTLE_WHITE_KING,
        56 => CASTLE_BLACK_QUEEN,
        63 => CASTLE_BLACK_KING,
        _ => 0,
    }
}

fn castle_rook_of(c: Color, to: u8) -> (r: Option<(u8, u8)>)
    ensures
        match castle_rook(c, to as int) {
            Some((rf, rt)) => r == Some((rf as u8, rt as u8)),
            None => r.is_none(),
        },
{
    match (c, to) {
        (Color::White, 6) => Some((7, 5)),
        (Color::White, 2) => Some((0, 3)),
        (Color::Black, 62) => Some((63, 61)),
        (Color::Black, 58) => Some((56, 59)),
        _ => None,
    }
}

fn distance(a: u8, b: u8) -> (r: u8)
    ensures
        r as int == abs_diff(a as int, b as int),
{
    if a > b {
        a - b
    } else {
        b - a
    }
}

impl Board {
    /// A board with no pieces, white to move, no castling rights, no en-passant square.
    pub fn empty() -> (b: Board)
        ensures
            forall|c: int, p: int| 0 <= c < 2 && 0 <= p < 6 ==> b.pieces[c][p] == 0,
            b.side_to_move == Color::White,
            b.occupied == 0,
            b.castling_rights == 0,
            b.en_passant_square.is_none(),
    {
        Board {
            pieces: [[0; 6]; 2],
            side_to_move: Color::White,
            occupied: 0,
            castling_rights: 0,
            en_passant_square: None,
        }
    }

    /// Replaces the set of piece `p` of color `c`.
    pub fn set_bits(&mut self, c: usize, p: usize, v: Bitboard)
        requires
            c < 2,
            p < 6,
        ensures
            *final(self) == with_bits(*old(self), c as int, p as int, v),
    {
        self.pieces[c][p] = v;
        proof {
            let w = with_bits(*old(self), c as int, p as int, v);
            assert(self.pieces[c as int] =~= w.pieces[c as int]);
            assert(self.pieces =~= w.pieces);
        }
    }

    /// The standard starting position, white to move, all four castling rights.
    pub fn startpos() -> (b: Board)
        ensures
            b == with_occupancy(start_board()),
    {
        let mut b = Board::empty();
        b.set_bits(0, 0, RANK_2);
        b.set_bits(1, 0, RANK_7);
        b.set_bits(0, 3, bb(0) | bb(7));
        b.set_bits(1, 3, bb(56) | bb(63));
        b.set_bits(0, 1, bb(1) | bb(6));
        b.set_bits(1, 1, bb(57) | bb(62));
        b.set_bits(0, 2, bb(2) | bb(5));
        b.set_bits(1, 2, bb(58) | bb(61));
        b.set_bits(0, 4, bb(3));
        b.set_bits(1, 4, bb(59));
        b.set_bits(0, 5, bb(4));
        b.set_bits(1, 5, bb(60));
        b.castling_rights = CASTLE_WHITE_KING | CASTLE_WHITE_QUEEN | CASTLE_BLACK_KING
            | CASTLE_BLACK_QUEEN;
        assert(1u8 | 2u8 | 4u8 | 8u8 == 15u8) by (bit_vector);
        b.recompute_occupancy();
        proof {
            let s = start_board();
            assert(b.pieces[0] =~= s.pieces[0]);
            assert(b.pieces[1] =~= s.pieces[1]);
            assert(b.pieces =~= s.pieces);
        }
        b
    }

    /// Sets the occupancy to the union of all piece sets.
    pub fn recompute_occupancy(&mut self)
        ensures
            *final(self) == with_occupancy(*old(self)),
    {
        let w = self.occupied_by(Color::White);
        let k = self.occupied_by(Color::Black);
        self.occupied = w | k;
    }

    /// The squares holding a piece of `color`.
    pub fn occupied_by(&self, color: Color) -> (r: Bitboard)
        ensures
            r == color_union(self.pieces[color_index(color)]),
    {
        let row = self.pieces[color.index()];
        row[0] | row[1] | row[2] | row[3] | row[4] | row[5]
    }

    /// The color and kind of the piece on `square`, if any.
    pub fn piece_at(&self, square: u8) -> (r: Option<(Color, Piece)>)
        requires
            square < 64,
        ensures
            r == piece_at_spec(*self, square as int),
    {
        let mut k: usize = 0;
        while k < 12
            invariant
                k <= 12,
                square < 64,
                scan_at(*self, square as int, 0) == scan_at(*self, square as int, k as int),
            decreases 12 - k,
        {
            let c = k / 6;
            let p = k % 6;
            if (self.pieces[c][p] >> (square as u64)) & 1 == 1 {
                let color = if c == 0 {
                    Color::White
                } else {
                    Color::Black
                };
                return Some((color, index_to_piece(p)));
            }
            k = k + 1;
        }
        None
    }

    /// Plays `mv` for the side to move and returns what is needed to take it back.
    pub fn make_move(&mut self, mv: Move) -> (undo: Undo)
        requires
            mv.from < 64,
            mv.to < 64,
            moved_index(*old(self), mv) < 6,
            mv.promotion matches Some(q) ==> q < 6,
            ep_in_range(old(self).en_passant_square),
        ensures
            *final(self) == make_board(*old(self), mv),
            undo == make_undo(*old(self), mv),
            final(self).side_to_move == opposite_spec(old(self).side_to_move),
            final(self).occupied == all_union(final(self).pieces),
            rights_within(final(self).castling_rights, old(self).castling_rights),
            final(self).en_passant_square.is_some() <==> (moved_index(*old(self), mv) == 0
                && abs_diff(mv.from as int, mv.to as int) == 16),
            ep_in_range(final(self).en_passant_square),
    {
        let ghost b0 = *self;
        let from_mask = bb(mv.from);
        let to_mask = bb(mv.to);
        let color = self.side_to_move;
        let enemy = color.opposite();
        let ci = color.index();
        let ei = enemy.index();

        let moved = find_piece(&self.pieces[ci], mv.from);
        let v = (self.pieces[ci][moved] ^ from_mask) | to_mask;
        self.set_bits(ci, moved, v);
        assert(*self == stage_lift(b0, mv));

        let mut captured: Option<(Color, Piece)> = None;
        let victim = find_piece(&self.pieces[ei], mv.to);
        assert(victim as int == victim_index(b0, mv));
        if victim < 6 {
            let v = self.pieces[ei][victim] ^ to_mask;
            self.set_bits(ei, victim, v);
            captured = Some((enemy, index_to_piece(victim)));
        }
        assert(*self == stage_capture(b0, mv));

        let is_ep = moved == 0 && match self.en_passant_square {
            Some(e) => e == mv.to,
            None => false,
        };
        if is_ep {
            let victim_sq = match color {
                Color::White => mv.to - 8,
                Color::Black => mv.to + 8,
            };
            let v = self.pieces[ei][0] ^ bb(victim_sq);
            self.set_bits(ei, 0, v);
            captured = Some((enemy, Piece::Pawn));
        }
        assert(*self == stage_en_passant(b0, mv));
        assert(captured == make_captured(b0, mv));

        if let Some(q) = mv.promotion {
            let v = self.pieces[ci][0] ^ to_mask;
            self.set_bits(ci, 0, v);
            let qi = q as usize;
            let v = self.pieces[ci][qi] | to_mask;
            self.set_bits(ci, qi, v);
        }
        self.recompute_occupancy();
        assert(*self == stage_promote(b0, mv));

        let undo = Undo {
            captured,
            side_to_move: self.side_to_move,
            castling_rights: self.castling_rights,
            en_passant_square: self.en_passant_square,
        };

        let dist = distance(mv.from, mv.to);
        self.en_passant_square = None;
        if moved == 0 && dist == 16 {
            self.en_passant_square = Some((mv.from + mv.to) / 2);
        }

        if moved == 5 && dist == 2 {
            if let Some((rf, rt)) = castle_rook_of(color, mv.to) {
                let v = (self.pieces[ci][3] ^ bb(rf)) | bb(rt);
                self.set_bits(ci, 3, v);
            }
            self.recompute_occupancy();
        }
        assert(self.pieces == stage_castle(b0, mv).pieces);
        assert(self.occupied == stage_castle(b0, mv).occupied);

        let mut rights = self.castling_rights;
        if moved == 5 {
            if color == Color::White {
                rights = rights & !(CASTLE_WHITE_KING | CASTLE_WHITE_QUEEN);
            } else {
                rights = rights & !(CASTLE_BLACK_KING | CASTLE_BLACK_QUEEN);
            }
        } else if moved == 3 {
            let cr = corner_right_of(mv.from);
            if cr != 0 {
                rights = rights & !cr;
            }
        }
        if captured.is_some() {
            let cr = corner_right_of(mv.to);
            if cr != 0 {
                rights = rights & !cr;
            }
        }
        self.castling_rights = rights;
        self.side_to_move = enemy;
        proof {
            lemma_rights_shrink();
            let r0 = b0.castling_rights;
            let pm = moved_index(b0, mv);
            let r1 = if pm == 5 {
                r0 & !color_rights(b0.side_to_move)
            } else if pm == 3 && corner_right(mv.from as int) != 0 {
                r0 & !corner_right(mv.from as int)
            } else {
                r0
            };
            assert(rights_within(r1, r0));
            assert(rights_within(self.castling_rights, r1));
            assert(rights_within(self.castling_rights, r0));
        }
        undo
    }

    /// Takes back `mv`, given the record `make_move` returned for it.
    pub fn unmake_move(&mut self, mv: Move, undo: Undo)
        requires
            mv.from < 64,
            mv.to < 64,
            mv.promotion matches Some(q) ==> q < 6,
            ep_in_range(undo.en_passant_square),
        ensures
            *final(self) == unmake_board(*old(self), mv, undo),
    {
        let from_mask = bb(mv.from);
        let to_mask = bb(mv.to);
        let color = undo.side_to_move;
        let ci = color.index();

        self.side_to_move = color;
        self.castling_rights = undo.castling_rights;
        self.en_passant_square = undo.en_passant_square;

        let is_castling = distance(mv.from, mv.to) == 2 && (self.pieces[ci][5] >> (mv.to as u64))
            & 1 == 1;
        if is_castling {
            let v = (self.pieces[ci][5] ^ to_mask) | from_mask;
            self.set_bits(ci, 5, v);
            if let Some((rf, rt)) = castle_rook_of(color, mv.to) {
                let v = (self.pieces[ci][3] ^ bb(rt)) | bb(rf);
                self.set_bits(ci, 3, v);
            }
        } else {
            if let Some(q) = mv.promotion {
                let qi = q as usize;
                let v = self.pieces[ci][qi] ^ to_mask;
                self.set_bits(ci, qi, v);
                let v = self.pieces[ci][0] | from_mask;
                self.set_bits(ci, 0, v);
            } else {
                let k = find_piece(&self.pieces[ci], mv.to);
                if k < 6 {
                    let v = (self.pieces[ci][k] ^ to_mask) | from_mask;
                    self.set_bits(ci, k, v);
                }
            }
            let was_ep = (self.pieces[ci][0] >> (mv.from as u64)) & 1 == 1 && match undo.captured {
                Some((_, p)) => p == Piece::Pawn,
                None => false,
            } && match undo.en_passant_square {
                Some(e) => e == mv.to,
                None => false,
            };
            if let Some((c, piece)) = undo.captured {
                let sq = if was_ep {
                    match color {
                        Color::White => mv.to - 8,
                        Color::Black => mv.to + 8,
                    }
                } else {
                    mv.to
                };
                let cc = c.index();
                let pp = piece.index();
                let v = self.pieces[cc][pp] | bb(sq);
                self.set_bits(cc, pp, v);
            }
        }
        self.recompute_occupancy();
    }

    /// Whether `sq` is attacked by a piece of color `by`.
    pub fn is_square_attacked(&self, sq: u8, by: Color) -> (r: bool)
        requires
            sq < 64,
        ensures
            r == attacked_spec(*self, sq as int, by),
    {
        let attackers = self.pieces[by.index()];
        let occ = self.occupied;
        let pawn_reach = match by {
            Color::White => black_pawn_attacks(sq),
            Color::Black => white_pawn_attacks(sq),
        };
        if pawn_reach & attackers[0] != 0 {
            return true;
        }
        if knight_attacks(sq) & attackers[1] != 0 {
            return true;
        }
        let queens = attackers[4];
        if bishop_attacks(sq, occ) & (attackers[2] | queens) != 0 {
            return true;
        }
        if rook_attacks(sq, occ) & (attackers[3] | queens) != 0 {
            return true;
        }
        king_attacks(sq) & attackers[5] != 0
    }

    /// Whether the king of `color` is attacked. A side with no king is not in check.
    pub fn in_check(&self, color: Color) -> (r: bool)
        ensures
            r == in_check_spec(*self, color),
    {
        let king_bb = self.pieces[color.index()][5];
        if king_bb == 0 {
            return false;
        }
        proof {
            vstd::std_specs::bits::axiom_u64_trailing_zeros(king_bb);
        }
        let king_sq = king_bb.trailing_zeros() as u8;
        self.is_square_attacked(king_sq, color.opposite())
    }
}

} // verus!
