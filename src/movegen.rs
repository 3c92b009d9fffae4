use vstd::prelude::*;
use crate::attacks::{
    bishop_attacks, bishop_mask, king_attacks, king_mask, knight_attacks, knight_mask,
    queen_attacks, queen_mask, rook_attacks, rook_mask,
};
use crate::bitboard::{has_bit, Bitboard, CASTLE_BLACK_KING, CASTLE_BLACK_QUEEN, CASTLE_WHITE_KING, CASTLE_WHITE_QUEEN};
use crate::board::{attacked_spec, color_union, disjoint_pieces, in_check_spec, make_board, wf, Board};
use crate::moves::{Move, MoveList};
use crate::piece::{color_index, opposite_spec, Color};

verus! {

/// Index of the side to move.
pub open spec fn side(b: Board) -> int {
    color_index(b.side_to_move)
}

/// Squares holding a piece of the side to move.
pub open spec fn own_bits(b: Board) -> u64 {
    color_union(b.pieces[side(b)])
}

/// Squares holding a piece of the side not to move.
pub open spec fn enemy_bits(b: Board) -> u64 {
    color_union(b.pieces[color_index(opposite_spec(b.side_to_move))])
}

/// The squares piece kind `p` (knight to king) reaches from `from`, without those of its own
/// side.
pub open spec fn piece_targets(b: Board, p: int, from: int) -> u64 {
    let occ = b.occupied;
    let t = if p == 1 {
        knight_mask(from)
    } else if p == 2 {
        bishop_mask(from, occ)
    } else if p == 3 {
        rook_mask(from, occ)
    } else if p == 4 {
        queen_mask(from, occ)
    } else {
        king_mask(from)
    };
    t & !own_bits(b)
}

/// `m` is a move of a knight, bishop, rook, queen or king (kind `p`) of the side to move.
pub open spec fn piece_move(b: Board, p: int, m: Move) -> bool {
    m.promotion.is_none() && m.from < 64 && m.to < 64 && has_bit(b.pieces[side(b)][p], m.from as int)
        && has_bit(piece_targets(b, p, m.from as int), m.to as int)
}

pub open spec fn forward(c: Color) -> int {
    if c == Color::White {
        1
    } else {
        -1
    }
}

pub open spec fn last_rank(c: Color) -> int {
    if c == Color::White {
        7
    } else {
        0
    }
}

pub open spec fn home_rank(c: Color) -> int {
    if c == Color::White {
        1
    } else {
        6
    }
}

/// A pawn move onto the last rank names a knight, bishop, rook or queen; any other names none.
pub open spec fn promotion_fits(c: Color, m: Move) -> bool {
    if m.to / 8 == last_rank(c) {
        match m.promotion {
            Some(q) => 1 <= q <= 4,
            None => false,
        }
    } else {
        m.promotion.is_none()
    }
}

/// A single push onto an empty square.
pub open spec fn pawn_single(b: Board, m: Move) -> bool {
    m.to % 8 == m.from % 8 && m.to / 8 == m.from / 8 + forward(b.side_to_move) && !has_bit(
        b.occupied,
        m.to as int,
    ) && promotion_fits(b.side_to_move, m)
}

/// A double push from the home rank over two empty squares.
pub open spec fn pawn_double(b: Board, m: Move) -> bool {
    let d = forward(b.side_to_move);
    m.to % 8 == m.from % 8 && m.from / 8 == home_rank(b.side_to_move) && m.to / 8 == m.from / 8 + 2
        * d && !has_bit(b.occupied, m.from + 8 * d) && !has_bit(b.occupied, m.to as int)
        && m.promotion.is_none()
}

/// One rank forward and one file aside, by `df`.
pub open spec fn pawn_diagonal(b: Board, m: Move, df: int) -> bool {
    m.to % 8 == m.from % 8 + df && m.to / 8 == m.from / 8 + forward(b.side_to_move)
}

/// A diagonal capture of an enemy piece, or a diagonal step onto the en-passant square when
/// no enemy piece stands there.
pub open spec fn pawn_take(b: Board, m: Move, df: int) -> bool {
    pawn_diagonal(b, m, df) && ((has_bit(enemy_bits(b), m.to as int) && promotion_fits(
        b.side_to_move,
        m,
    )) || (!has_bit(enemy_bits(b), m.to as int) && b.en_passant_square == Some(m.to)
        && m.promotion.is_none()))
}

/// `m` is a pawn move of the side to move: a push onto an empty square, a double push from
/// the home rank over two empty squares, a diagonal capture of an enemy piece, or a diagonal
/// step onto the en-passant square.
pub open spec fn pawn_move(b: Board, m: Move) -> bool {
    &&& m.from < 64
    &&& m.to < 64
    &&& has_bit(b.pieces[side(b)][0], m.from as int)
    &&& (pawn_single(b, m) || pawn_double(b, m) || pawn_take(b, m, -1) || pawn_take(b, m, 1))
}

/// `m` is a castle of the side to move: the king on its home square, the rook on its corner,
/// the right held, the squares between empty, the king not in check and neither square it
/// crosses or lands on attacked.
pub open spec fn castle_move(b: Board, m: Move) -> bool {
    let c = b.side_to_move;
    let ci = side(b);
    let e = opposite_spec(c);
    let occ = b.occupied;
    let home: int = if c == Color::White { 4 } else { 60 };
    &&& m.promotion.is_none()
    &&& m.from == home
    &&& !in_check_spec(b, c)
    &&& has_bit(b.pieces[ci][5], home)
    &&& {
        ||| (m.to == home + 2 && (b.castling_rights & (if c == Color::White {
            CASTLE_WHITE_KING
        } else {
            CASTLE_BLACK_KING
        })) != 0 && has_bit(b.pieces[ci][3], home + 3) && !has_bit(occ, home + 1) && !has_bit(
            occ,
            home + 2,
        ) && !attacked_spec(b, home + 1, e) && !attacked_spec(b, home + 2, e))
        ||| (m.to == home - 2 && (b.castling_rights & (if c == Color::White {
            CASTLE_WHITE_QUEEN
        } else {
            CASTLE_BLACK_QUEEN
        })) != 0 && has_bit(b.pieces[ci][3], home - 4) && !has_bit(occ, home - 1) && !has_bit(
            occ,
            home - 2,
        ) && !has_bit(occ, home - 3) && !attacked_spec(b, home - 1, e) && !attacked_spec(
            b,
            home - 2,
            e,
        ))
    }
}

/// Moves that follow the pieces' movement rules, before the own king's safety is asked.
pub open spec fn pseudo_legal(b: Board, m: Move) -> bool {
    ||| pawn_move(b, m)
    ||| piece_move(b, 1, m)
    ||| piece_move(b, 2, m)
    ||| piece_move(b, 3, m)
    ||| piece_move(b, 4, m)
    ||| piece_move(b, 5, m)
    ||| castle_move(b, m)
}

/// The moves appended to `o` to give `n`.
pub open spec fn appended(o: Seq<Move>, n: Seq<Move>) -> Seq<Move> {
    n.subrange(o.len() as int, n.len() as int)
}

/// Joining two parts: what the join holds, and when it holds each move once.
proof fn lemma_join(base: Seq<Move>, part: Seq<Move>, a: Seq<Move>)
    ensures
        (base + part) + a == base + (part + a),
        appended(base, base + part) == part,
        forall|x: Move| #[trigger] (part + a).contains(x) <==> part.contains(x) || a.contains(x),
        part.no_duplicates() && a.no_duplicates() && (forall|x: Move|
            #[trigger] part.contains(x) ==> !a.contains(x)) ==> (part + a).no_duplicates(),
{
    assert((base + part) + a =~= base + (part + a));
    assert(appended(base, base + part) =~= part);
    let j = part + a;
    assert forall|x: Move| #[trigger] j.contains(x) <==> part.contains(x) || a.contains(x) by {
        if j.contains(x) {
            let i = choose|i: int| 0 <= i < j.len() && j[i] == x;
            if i < part.len() {
                assert(part[i] == x);
            } else {
                assert(a[i - part.len()] == x);
            }
        }
        if part.contains(x) {
            let i = choose|i: int| 0 <= i < part.len() && part[i] == x;
            assert(j[i] == x);
        }
        if a.contains(x) {
            let i = choose|i: int| 0 <= i < a.len() && a[i] == x;
            assert(j[i + part.len()] == x);
        }
    }
    if part.no_duplicates() && a.no_duplicates() && (forall|x: Move|
        #[trigger] part.contains(x) ==> !a.contains(x)) {
        assert forall|i: int, k: int| 0 <= i < j.len() && 0 <= k < j.len() && i != k implies j[i]
            != j[k] by {
            if i < part.len() && k >= part.len() {
                assert(part.contains(j[i]));
                assert(a[k - part.len()] == j[k]);
            } else if k < part.len() && i >= part.len() {
                assert(part.contains(j[k]));
                assert(a[i - part.len()] == j[i]);
            } else if i >= part.len() && k >= part.len() {
                assert(a[i - part.len()] == j[i] && a[k - part.len()] == j[k]);
            }
        }
    }
}

/// Appending one move.
proof fn lemma_push_part(base: Seq<Move>, part: Seq<Move>, m: Move)
    ensures
        (base + part).push(m) == base + (part + seq![m]),
        forall|x: Move| #[trigger] (part + seq![m]).contains(x) <==> part.contains(x) || x == m,
        part.no_duplicates() && !part.contains(m) ==> (part + seq![m]).no_duplicates(),
{
    let one = seq![m];
    assert(one[0] == m);
    assert forall|x: Move| #[trigger] one.contains(x) <==> x == m by {
        if one.contains(x) {
            let i = choose|i: int| 0 <= i < one.len() && one[i] == x;
        }
    }
    assert((base + part).push(m) =~= (base + part) + one);
    lemma_join(base, part, one);
    assert(one.no_duplicates());
}

/// Takes the lowest square out of a non-empty set and returns it.
fn pop_lsb(bb: &mut u64) -> (sq: u8)
    requires
        *old(bb) != 0,
    ensures
        sq < 64,
        has_bit(*old(bb), sq as int),
        forall|s: int| #[trigger] has_bit(*final(bb), s) == (has_bit(*old(bb), s) && s != sq),
        *final(bb) < *old(bb),
{
    let x = *bb;
    proof {
        vstd::std_specs::bits::axiom_u64_trailing_zeros(x);
    }
    let t = x.trailing_zeros();
    let y = x & (x - 1);
    proof {
        let tt = t as u64;
        lemma_clear_lowest(x, tt);
        assert forall|s: int| #[trigger] has_bit(y, s) == (has_bit(x, s) && s != t) by {
            if 0 <= s < 64 {
                let su = s as u64;
                assert((((x & vstd::prelude::sub(x, 1)) >> su) & 1 == 1) == ((x >> su) & 1 == 1 && su != tt));
            }
        }
    }
    *bb = y;
    t as u8
}

proof fn lemma_clear_lowest(x: u64, t: u64)
    by (bit_vector)
    requires
        t < 64,
        (x >> t) & 1 == 1,
        x << vstd::prelude::sub(64, t) == 0,
    ensures
        forall|i: u64|
            i < 64 ==> (#[trigger] ((x & vstd::prelude::sub(x, 1)) >> i) & 1 == 1) == ((x >> i) & 1 == 1 && i != t),
        x & vstd::prelude::sub(x, 1) < x,
{
}

/// Adds a move from `from`, promoting to nothing, onto each square of `targets`.
fn push_targets(from: u8, targets: Bitboard, moves: &mut MoveList)
    requires
        from < 64,
    ensures
        final(moves)@ == old(moves)@ + appended(old(moves)@, final(moves)@),
        forall|x: Move| #[trigger]
            appended(old(moves)@, final(moves)@).contains(x) <==> (x.from == from
                && x.promotion.is_none() && x.to < 64 && has_bit(targets, x.to as int)),
        appended(old(moves)@, final(moves)@).no_duplicates(),
{
    let ghost base = moves@;
    let ghost mut part: Seq<Move> = Seq::empty();
    proof {
        assert(moves@ =~= base + part);
    }
    let mut rem = targets;
    while rem != 0
        invariant
            from < 64,
            moves@ == base + part,
            forall|s: int| #[trigger] has_bit(rem, s) ==> has_bit(targets, s),
            forall|x: Move| #[trigger]
                part.contains(x) <==> (x.from == from && x.promotion.is_none() && x.to < 64
                    && has_bit(targets, x.to as int) && !has_bit(rem, x.to as int)),
            part.no_duplicates(),
        decreases rem,
    {
        let ghost r0 = rem;
        let to = pop_lsb(&mut rem);
        let m = Move { from, to, promotion: None };
        assert(!part.contains(m)) by {
            assert(has_bit(r0, to as int));
        }
        moves.push(m);
        proof {
            lemma_push_part(base, part, m);
            part = part + seq![m];
        }
    }
    proof {
        crate::bitboard::lemma_bit_ops();
        assert forall|s: int| !#[trigger] has_bit(rem, s) by {
            if 0 <= s < 64 {
                assert(!((0u64 >> (s as u64)) & 1 == 1));
            }
        }
        lemma_join(base, part, Seq::empty());
    }
}

/// Adds the moves of every piece of kind `p` (knight to king) of the side to move.
fn gen_piece_moves(board: &Board, p: usize, moves: &mut MoveList)
    requires
        1 <= p <= 5,
    ensures
        final(moves)@ == old(moves)@ + appended(old(moves)@, final(moves)@),
        forall|x: Move| #[trigger]
            appended(old(moves)@, final(moves)@).contains(x) <==> piece_move(*board, p as int, x),
        appended(old(moves)@, final(moves)@).no_duplicates(),
{
    let ghost base = moves@;
    let ghost mut part: Seq<Move> = Seq::empty();
    proof {
        assert(moves@ =~= base + part);
    }
    let color = board.side_to_move;
    let ci = color.index();
    let own = board.occupied_by(color);
    let occ = board.occupied;
    let pieces = board.pieces[ci][p];
    let mut rem = pieces;
    while rem != 0
        invariant
            1 <= p <= 5,
            ci as int == side(*board),
            own == own_bits(*board),
            occ == board.occupied,
            pieces == board.pieces[ci as int][p as int],
            moves@ == base + part,
            forall|s: int| #[trigger] has_bit(rem, s) ==> has_bit(pieces, s),
            forall|x: Move| #[trigger]
                part.contains(x) <==> (piece_move(*board, p as int, x) && !has_bit(rem, x.from as int)),
            part.no_duplicates(),
        decreases rem,
    {
        let ghost r0 = rem;
        let from = pop_lsb(&mut rem);
        let attacks = match p {
            1 => knight_attacks(from),
            2 => bishop_attacks(from, occ),
            3 => rook_attacks(from, occ),
            4 => queen_attacks(from, occ),
            _ => king_attacks(from),
        };
        let targets = attacks & !own;
        assert(targets == piece_targets(*board, p as int, from as int));
        let ghost before = moves@;
        push_targets(from, targets, moves);
        proof {
            let a = appended(before, moves@);
            assert forall|x: Move| #[trigger] part.contains(x) implies !a.contains(x) by {
                assert(has_bit(r0, from as int));
            }
            lemma_join(base, part, a);
            part = part + a;
        }
    }
    proof {
        crate::bitboard::lemma_bit_ops();
        assert forall|s: int| !#[trigger] has_bit(rem, s) by {
            if 0 <= s < 64 {
                assert(!((0u64 >> (s as u64)) & 1 == 1));
            }
        }
        lemma_join(base, part, Seq::empty());
    }
}

/// Adds the knight moves of the side to move.
pub fn gen_knights(board: &Board, moves: &mut MoveList)
    ensures
        final(moves)@ == old(moves)@ + appended(old(moves)@, final(moves)@),
        forall|x: Move| #[trigger]
            appended(old(moves)@, final(moves)@).contains(x) <==> piece_move(*board, 1, x),
        appended(old(moves)@, final(moves)@).no_duplicates(),
{
    gen_piece_moves(board, 1, moves)
}

/// Adds the bishop moves of the side to move.
pub fn gen_bishops(board: &Board, moves: &mut MoveList)
    ensures
        final(moves)@ == old(moves)@ + appended(old(moves)@, final(moves)@),
        forall|x: Move| #[trigger]
            appended(old(moves)@, final(moves)@).contains(x) <==> piece_move(*board, 2, x),
        appended(old(moves)@, final(moves)@).no_duplicates(),
{
    gen_piece_moves(board, 2, moves)
}

/// Adds the rook moves of the side to move.
pub fn gen_rooks(board: &Board, moves: &mut MoveList)
    ensures
        final(moves)@ == old(moves)@ + appended(old(moves)@, final(moves)@),
        forall|x: Move| #[trigger]
            appended(old(moves)@, final(moves)@).contains(x) <==> piece_move(*board, 3, x),
        appended(old(moves)@, final(moves)@).no_duplicates(),
{
    gen_piece_moves(board, 3, moves)
}

/// Adds the queen moves of the side to move.
pub fn gen_queens(board: &Board, moves: &mut MoveList)
    ensures
        final(moves)@ == old(moves)@ + appended(old(moves)@, final(moves)@),
        forall|x: Move| #[trigger]
            appended(old(moves)@, final(moves)@).contains(x) <==> piece_move(*board, 4, x),
        appended(old(moves)@, final(moves)@).no_duplicates(),
{
    gen_piece_moves(board, 4, moves)
}

/// Adds the castling moves of the side to move.
pub fn gen_castling(board: &Board, moves: &mut MoveList)
    ensures
        final(moves)@ == old(moves)@ + appended(old(moves)@, final(moves)@),
        forall|x: Move| #[trigger]
            appended(old(moves)@, final(moves)@).contains(x) <==> castle_move(*board, x),
        appended(old(moves)@, final(moves)@).no_duplicates(),
{
    let ghost base = moves@;
    let ghost mut part: Seq<Move> = Seq::empty();
    proof {
        assert(moves@ =~= base + part);
        lemma_join(base, part, Seq::empty());
    }
    let color = board.side_to_move;
    let enemy = color.opposite();
    let occ = board.occupied;
    if board.in_check(color) {
        return;
    }
    let ci = color.index();
    let (home, king_right, queen_right): (u8, u8, u8) = match color {
        Color::White => (4, CASTLE_WHITE_KING, CASTLE_WHITE_QUEEN),
        Color::Black => (60, CASTLE_BLACK_KING, CASTLE_BLACK_QUEEN),
    };
    if (board.pieces[ci][5] >> (home as u64)) & 1 != 1 {
        return;
    }
    let rooks = board.pieces[ci][3];
    if board.castling_rights & king_right != 0 && (rooks >> ((home + 3) as u64)) & 1 == 1 && (occ
        >> ((home + 1) as u64)) & 1 != 1 && (occ >> ((home + 2) as u64)) & 1 != 1
        && !board.is_square_attacked(home + 1, enemy) && !board.is_square_attacked(home + 2, enemy) {
        let m = Move { from: home, to: home + 2, promotion: None };
        moves.push(m);
        proof {
            lemma_push_part(base, part, m);
            part = part + seq![m];
        }
    }
    if board.castling_rights & queen_right != 0 && (rooks >> ((home - 4) as u64)) & 1 == 1 && (occ
        >> ((home - 1) as u64)) & 1 != 1 && (occ >> ((home - 2) as u64)) & 1 != 1 && (occ >> ((home
        - 3) as u64)) & 1 != 1 && !board.is_square_attacked(home - 1, enemy)
        && !board.is_square_attacked(home - 2, enemy) {
        let m = Move { from: home, to: home - 2, promotion: None };
        moves.push(m);
        proof {
            lemma_push_part(base, part, m);
            part = part + seq![m];
        }
    }
    proof {
        lemma_join(base, part, Seq::empty());
    }
}

/// Adds the move of the pawn on `from` to `to`: four promotions (queen, rook, bishop,
/// knight) when `promote`, else one plain move.
fn push_pawn_move(from: u8, to: u8, promote: bool, moves: &mut MoveList)
    ensures
        final(moves)@ == old(moves)@ + appended(old(moves)@, final(moves)@),
        forall|x: Move| #[trigger]
            appended(old(moves)@, final(moves)@).contains(x) <==> (x.from == from && x.to == to
                && if promote {
                match x.promotion {
                    Some(q) => 1 <= q <= 4,
                    None => false,
                }
            } else {
                x.promotion.is_none()
            }),
        appended(old(moves)@, final(moves)@).no_duplicates(),
{
    let ghost base = moves@;
    let ghost mut part: Seq<Move> = Seq::empty();
    proof {
        assert(moves@ =~= base + part);
    }
    if promote {
        let m4 = Move { from, to, promotion: Some(4) };
        let m3 = Move { from, to, promotion: Some(3) };
        let m2 = Move { from, to, promotion: Some(2) };
        let m1 = Move { from, to, promotion: Some(1) };
        moves.push(m4);
        proof {
            lemma_push_part(base, part, m4);
            part = part + seq![m4];
        }
        moves.push(m3);
        proof {
            lemma_push_part(base, part, m3);
            part = part + seq![m3];
        }
        moves.push(m2);
        proof {
            lemma_push_part(base, part, m2);
            part = part + seq![m2];
        }
        moves.push(m1);
        proof {
            lemma_push_part(base, part, m1);
            part = part + seq![m1];
        }
    } else {
        let m = Move { from, to, promotion: None };
        moves.push(m);
        proof {
            lemma_push_part(base, part, m);
            part = part + seq![m];
        }
    }
    proof {
        lemma_join(base, part, Seq::empty());
    }
}

fn is_en_passant_square(board: &Board, sq: u8) -> (r: bool)
    ensures
        r == (board.en_passant_square == Some(sq)),
{
    match board.en_passant_square {
        Some(e) => e == sq,
        None => false,
    }
}

/// Adds the moves of the pawn of the side to move on `from`.
fn gen_pawn_from(board: &Board, from: u8, enemy: Bitboard, moves: &mut MoveList)
    requires
        from < 64,
        enemy == enemy_bits(*board),
        has_bit(board.pieces[side(*board)][0], from as int),
    ensures
        final(moves)@ == old(moves)@ + appended(old(moves)@, final(moves)@),
        forall|x: Move| #[trigger]
            appended(old(moves)@, final(moves)@).contains(x) <==> (x.from == from && pawn_move(
                *board,
                x,
            )),
        appended(old(moves)@, final(moves)@).no_duplicates(),
{
    let ghost base = moves@;
    let ghost mut part: Seq<Move> = Seq::empty();
    proof {
        assert(moves@ =~= base + part);
        lemma_join(base, part, Seq::empty());
    }
    let color = board.side_to_move;
    let occ = board.occupied;
    let f0: i8 = (from % 8) as i8;
    let r0: i8 = (from / 8) as i8;
    let (d, last, home): (i8, i8, i8) = match color {
        Color::White => (1, 7, 1),
        Color::Black => (-1, 0, 6),
    };
    assert(d == forward(color) && last == last_rank(color) && home == home_rank(color));
    let r1 = r0 + d;
    if r1 < 0 || r1 >= 8 {
        proof {
            assert forall|x: Move| #[trigger] part.contains(x) <==> (x.from == from && pawn_move(
                *board,
                x,
            )) by {
                if x.from == from && pawn_move(*board, x) {
                    assert(x.to / 8 < 8);
                }
            }
        }
        return;
    }
    let to = (r1 * 8 + f0) as u8;
    assert(to as int % 8 == f0 && to as int / 8 == r1);
    if (occ >> (to as u64)) & 1 != 1 {
        let ghost before = moves@;
        push_pawn_move(from, to, r1 == last, moves);
        proof {
            let a = appended(before, moves@);
            lemma_join(base, part, a);
            part = part + a;
        }
        let r2 = r1 + d;
        if r0 == home && 0 <= r2 && r2 < 8 {
            let to2 = (r2 * 8 + f0) as u8;
            assert(to2 as int % 8 == f0 && to2 as int / 8 == r2);
            assert(from as int + 8 * d == to as int);
            if (occ >> (to2 as u64)) & 1 != 1 {
                let m = Move { from, to: to2, promotion: None };
                assert(!part.contains(m));
                moves.push(m);
                proof {
                    lemma_push_part(base, part, m);
                    part = part + seq![m];
                }
            }
        }
    }
    let ghost p1 = part;
    proof {
        assert forall|x: Move| #[trigger] p1.contains(x) <==> (x.from == from && x.to < 64 && (
        pawn_single(*board, x) || pawn_double(*board, x))) by {
            if x.from == from && x.to < 64 {
                assert(x.to == (x.to / 8) * 8 + x.to % 8);
                if pawn_double(*board, x) {
                    assert(from as int + 8 * d == to as int);
                }
            }
        }
    }
    if f0 > 0 {
        let to = (r1 * 8 + f0 - 1) as u8;
        assert(to as int % 8 == f0 - 1 && to as int / 8 == r1);
        if (enemy >> (to as u64)) & 1 == 1 {
            let ghost before = moves@;
            push_pawn_move(from, to, r1 == last, moves);
            proof {
                let a = appended(before, moves@);
                assert forall|x: Move| #[trigger] part.contains(x) implies !a.contains(x) by {}
                lemma_join(base, part, a);
                part = part + a;
            }
        } else if is_en_passant_square(board, to) {
            let m = Move { from, to, promotion: None };
            assert(!part.contains(m));
            moves.push(m);
            proof {
                lemma_push_part(base, part, m);
                part = part + seq![m];
            }
        }
    }
    let ghost p2 = part;
    proof {
        assert forall|x: Move| #[trigger] p2.contains(x) <==> p1.contains(x) || (x.from == from
            && x.to < 64 && pawn_take(*board, x, -1)) by {
            if x.from == from && x.to < 64 {
                assert(x.to == (x.to / 8) * 8 + x.to % 8);
            }
        }
    }
    if f0 < 7 {
        let to = (r1 * 8 + f0 + 1) as u8;
        assert(to as int % 8 == f0 + 1 && to as int / 8 == r1);
        if (enemy >> (to as u64)) & 1 == 1 {
            let ghost before = moves@;
            push_pawn_move(from, to, r1 == last, moves);
            proof {
                let a = appended(before, moves@);
                assert forall|x: Move| #[trigger] part.contains(x) implies !a.contains(x) by {}
                lemma_join(base, part, a);
                part = part + a;
            }
        } else if is_en_passant_square(board, to) {
            let m = Move { from, to, promotion: None };
            assert(!part.contains(m));
            moves.push(m);
            proof {
                lemma_push_part(base, part, m);
                part = part + seq![m];
            }
        }
    }
    proof {
        assert forall|x: Move| #[trigger] part.contains(x) <==> p2.contains(x) || (x.from == from
            && x.to < 64 && pawn_take(*board, x, 1)) by {
            if x.from == from && x.to < 64 {
                assert(x.to == (x.to / 8) * 8 + x.to % 8);
            }
        }
        lemma_join(base, part, Seq::empty());
    }
}

/// Adds the pawn moves of the side to move.
pub fn gen_pawns(board: &Board, moves: &mut MoveList)
    ensures
        final(moves)@ == old(moves)@ + appended(old(moves)@, final(moves)@),
        forall|x: Move| #[trigger]
            appended(old(moves)@, final(moves)@).contains(x) <==> pawn_move(*board, x),
        appended(old(moves)@, final(moves)@).no_duplicates(),
{
    let ghost base = moves@;
    let ghost mut part: Seq<Move> = Seq::empty();
    proof {
        assert(moves@ =~= base + part);
    }
    let color = board.side_to_move;
    let pawns = board.pieces[color.index()][0];
    let enemy = board.occupied_by(color.opposite());
    let mut rem = pawns;
    while rem != 0
        invariant
            pawns == board.pieces[side(*board)][0],
            enemy == enemy_bits(*board),
            moves@ == base + part,
            forall|s: int| #[trigger] has_bit(rem, s) ==> has_bit(pawns, s),
            forall|x: Move| #[trigger]
                part.contains(x) <==> (pawn_move(*board, x) && !has_bit(rem, x.from as int)),
            part.no_duplicates(),
        decreases rem,
    {
        let ghost r0 = rem;
        let from = pop_lsb(&mut rem);
        let ghost before = moves@;
        gen_pawn_from(board, from, enemy, moves);
        proof {
            let a = appended(before, moves@);
            assert forall|x: Move| #[trigger] part.contains(x) implies !a.contains(x) by {
                assert(has_bit(r0, from as int));
            }
            lemma_join(base, part, a);
            part = part + a;
        }
    }
    proof {
        crate::bitboard::lemma_bit_ops();
        assert forall|s: int| !#[trigger] has_bit(rem, s) by {
            if 0 <= s < 64 {
                assert(!((0u64 >> (s as u64)) & 1 == 1));
            }
        }
        lemma_join(base, part, Seq::empty());
    }
}

/// Adds the king moves of the side to move, castling included.
pub fn gen_king(board: &Board, moves: &mut MoveList)
    ensures
        final(moves)@ == old(moves)@ + appended(old(moves)@, final(moves)@),
        forall|x: Move| #[trigger]
            appended(old(moves)@, final(moves)@).contains(x) <==> piece_move(*board, 5, x)
                || castle_move(*board, x),
        appended(old(moves)@, final(moves)@).no_duplicates(),
{
    let ghost base = moves@;
    gen_piece_moves(board, 5, moves);
    let ghost part = appended(base, moves@);
    let ghost before = moves@;
    gen_castling(board, moves);
    proof {
        let a = appended(before, moves@);
        assert forall|x: Move| #[trigger] part.contains(x) implies !a.contains(x) by {
            if castle_move(*board, x) {
                crate::bitboard::lemma_has_and_not(king_mask(x.from as int), own_bits(*board), x.to as int);
                crate::attacks::lemma_king_mask_near(x.from as int, x.to as int);
            }
        }
        lemma_join(base, part, a);
        lemma_join(base, part + a, Seq::empty());
    }
}

/// When no square holds two pieces, moves of the kinds before `p` do not start on a square
/// of kind `p`.
proof fn lemma_from_other_kinds(b: Board, s: Seq<Move>, p: int)
    requires
        1 <= p <= 5,
        forall|x: Move| #[trigger]
            s.contains(x) ==> pawn_move(b, x) || (exists|k: int| 1 <= k < p && piece_move(b, k, x)),
    ensures
        disjoint_pieces(b) ==> forall|x: Move| #[trigger]
            s.contains(x) ==> !has_bit(b.pieces[side(b)][p], x.from as int),
{
    if disjoint_pieces(b) {
        assert forall|x: Move| #[trigger] s.contains(x) implies !has_bit(
            b.pieces[side(b)][p],
            x.from as int,
        ) by {
            if pawn_move(b, x) {
                assert(has_bit(b.pieces[side(b)][0], x.from as int));
            } else {
                let k = choose|k: int| 1 <= k < p && piece_move(b, k, x);
                assert(has_bit(b.pieces[side(b)][k], x.from as int));
            }
        }
    }
}

/// `s` is the pawn moves, then the knight, bishop, rook, queen and king moves (castles
/// included) of the side to move, each part holding its moves once.
#[verifier::opaque]
pub open spec fn generated_in_order(b: Board, s: Seq<Move>) -> bool {
    exists|parts: Seq<Seq<Move>>|
        parts.len() == 6 && s == parts[0] + parts[1] + parts[2] + parts[3] + parts[4] + parts[5]
            && (forall|k: int| 0 <= k < 6 ==> (#[trigger] parts[k]).no_duplicates()) && (forall|
            x: Move,
        | #[trigger] parts[0].contains(x) <==> pawn_move(b, x)) && (forall|x: Move|
            #[trigger] parts[1].contains(x) <==> piece_move(b, 1, x)) && (forall|x: Move|
            #[trigger] parts[2].contains(x) <==> piece_move(b, 2, x)) && (forall|x: Move|
            #[trigger] parts[3].contains(x) <==> piece_move(b, 3, x)) && (forall|x: Move|
            #[trigger] parts[4].contains(x) <==> piece_move(b, 4, x)) && (forall|x: Move|
            #[trigger] parts[5].contains(x) <==> piece_move(b, 5, x) || castle_move(b, x))
}

/// Every move that follows the pieces' movement rules for the side to move: what the pawn,
/// knight, bishop, rook, queen and king generators add, in that order.
pub fn generate_moves(board: &Board) -> (r: MoveList)
    ensures
        generated_in_order(*board, r@),
        forall|x: Move| #[trigger] r@.contains(x) <==> pseudo_legal(*board, x),
        disjoint_pieces(*board) ==> r@.no_duplicates(),
{
    let mut moves: MoveList = Vec::with_capacity(64);
    let ghost b = *board;
    let ghost s0 = moves@;
    gen_pawns(board, &mut moves);
    let ghost a0 = appended(s0, moves@);
    let ghost s1 = moves@;
    gen_knights(board, &mut moves);
    let ghost a1 = appended(s1, moves@);
    let ghost s2 = moves@;
    gen_bishops(board, &mut moves);
    let ghost a2 = appended(s2, moves@);
    let ghost s3 = moves@;
    gen_rooks(board, &mut moves);
    let ghost a3 = appended(s3, moves@);
    let ghost s4 = moves@;
    gen_queens(board, &mut moves);
    let ghost a4 = appended(s4, moves@);
    let ghost s5 = moves@;
    gen_king(board, &mut moves);
    let ghost a5 = appended(s5, moves@);
    proof {
        let e = Seq::<Move>::empty();
        assert(s0 =~= e);
        assert(s1 =~= a0);
        let parts = seq![a0, a1, a2, a3, a4, a5];
        assert(parts[0] == a0 && parts[1] == a1 && parts[2] == a2 && parts[3] == a3 && parts[4]
            == a4 && parts[5] == a5);
        assert(moves@ =~= a0 + a1 + a2 + a3 + a4 + a5);
        assert forall|k: int| 0 <= k < 6 implies (#[trigger] parts[k]).no_duplicates() by {
            if k == 0 {
                assert(parts[k] == a0);
            } else if k == 1 {
                assert(parts[k] == a1);
            } else if k == 2 {
                assert(parts[k] == a2);
            } else if k == 3 {
                assert(parts[k] == a3);
            } else if k == 4 {
                assert(parts[k] == a4);
            } else {
                assert(parts[k] == a5);
            }
        }
        assert(parts.len() == 6 && moves@ == parts[0] + parts[1] + parts[2] + parts[3] + parts[4]
            + parts[5]);
        reveal(generated_in_order);
        assert(generated_in_order(b, moves@));
        lemma_join(e, a0, a1);
        lemma_join(e, a0 + a1, a2);
        lemma_join(e, a0 + a1 + a2, a3);
        lemma_join(e, a0 + a1 + a2 + a3, a4);
        lemma_join(e, a0 + a1 + a2 + a3 + a4, a5);
        if disjoint_pieces(b) {
            lemma_from_other_kinds(b, a0, 1);
            lemma_from_other_kinds(b, a0 + a1, 2);
            lemma_from_other_kinds(b, a0 + a1 + a2, 3);
            lemma_from_other_kinds(b, a0 + a1 + a2 + a3, 4);
            lemma_from_other_kinds(b, a0 + a1 + a2 + a3 + a4, 5);
            let pre = a0 + a1 + a2 + a3 + a4;
            assert forall|x: Move| #[trigger] pre.contains(x) implies !a5.contains(x) by {
                if castle_move(b, x) {
                    assert(has_bit(b.pieces[side(b)][5], x.from as int));
                }
            }
        }
    }
    moves
}

/// A legal move: pseudo-legal, and not leaving the mover's own king attacked.
pub open spec fn legal(b: Board, m: Move) -> bool {
    pseudo_legal(b, m) && !in_check_spec(make_board(b, m), b.side_to_move)
}

/// Keeps a move when the mover's king is not attacked after it.
pub open spec fn keeps_king_safe(b: Board) -> spec_fn(Move) -> bool {
    |m: Move| !in_check_spec(make_board(b, m), b.side_to_move)
}

/// `l` is a list of legal moves as generated: the generated moves, in order, without those
/// that leave the mover's king attacked.
#[verifier::opaque]
pub open spec fn legal_list(b: Board, l: Seq<Move>) -> bool {
    exists|p: Seq<Move>| generated_in_order(b, p) && l == #[trigger] p.filter(keeps_king_safe(b))
}

/// The legal moves of the side to move, each once: the generated moves, in their order,
/// without those that leave the mover's king attacked. The board is tried with each
/// pseudo-legal move and given back as it was.
pub fn generate_legal_moves(board: &mut Board) -> (r: MoveList)
    requires
        wf(*old(board)),
    ensures
        *final(board) == *old(board),
        legal_list(*old(board), r@),
        forall|x: Move| #[trigger] r@.contains(x) <==> legal(*old(board), x),
        r@.no_duplicates(),
{
    let ghost b0 = *board;
    let ghost f = keeps_king_safe(b0);
    let color = board.side_to_move;
    let pseudo = generate_moves(board);
    let mut legal_moves: MoveList = Vec::with_capacity(pseudo.len());
    let mut i: usize = 0;
    proof {
        assert(pseudo@.subrange(0, 0) =~= Seq::<Move>::empty());
        reveal(Seq::filter);
        assert(legal_moves@ =~= pseudo@.subrange(0, 0).filter(f));
    }
    while i < pseudo.len()
        invariant
            *board == b0,
            wf(b0),
            f == keeps_king_safe(b0),
            color == b0.side_to_move,
            i <= pseudo@.len(),
            forall|x: Move| #[trigger] pseudo@.contains(x) <==> pseudo_legal(b0, x),
            pseudo@.no_duplicates(),
            legal_moves@ == pseudo@.subrange(0, i as int).filter(f),
            forall|x: Move| #[trigger]
                legal_moves@.contains(x) <==> (exists|j: int| 0 <= j < i && pseudo@[j] == x) && legal(b0, x),
            legal_moves@.no_duplicates(),
        decreases pseudo@.len() - i,
    {
        let mv = pseudo[i];
        proof {
            assert(pseudo@.contains(mv));
            crate::lemmas::lemma_pseudo_facts(b0, mv);
            crate::lemmas::lemma_make_unmake(b0, mv);
            assert(mv.promotion matches Some(q) ==> q < 6);
        }
        let undo = board.make_move(mv);
        let exposed = board.in_check(color);
        board.unmake_move(mv, undo);
        let ghost before = legal_moves@;
        if !exposed {
            proof {
                assert forall|j: int| 0 <= j < i implies pseudo@[j] != mv by {
                    assert(pseudo@[i as int] == mv);
                }
            }
            legal_moves.push(mv);
            proof {
                lemma_push_part(Seq::empty(), before, mv);
                assert(Seq::<Move>::empty() + before =~= before);
                assert(before + seq![mv] =~= before.push(mv));
            }
        }
        proof {
            let sub = pseudo@.subrange(0, i + 1);
            assert(sub.drop_last() =~= pseudo@.subrange(0, i as int));
            assert(sub.last() == mv);
            assert(f(mv) == !exposed);
            assert(sub.len() > 0);
            reveal(Seq::filter);
            assert(sub.filter(f) == (if f(sub.last()) {
                sub.drop_last().filter(f).push(sub.last())
            } else {
                sub.drop_last().filter(f)
            }));
            assert(legal_moves@ == sub.filter(f));
            assert forall|x: Move| #[trigger] legal_moves@.contains(x) <==> (exists|j: int|
                0 <= j < i + 1 && pseudo@[j] == x) && legal(b0, x) by {
                if x == mv {
                    assert(pseudo@[i as int] == x);
                }
                if !exposed {
                    assert(legal_moves@.contains(x) <==> before.contains(x) || x == mv);
                }
                if exists|j: int| 0 <= j < i + 1 && pseudo@[j] == x {
                    let j = choose|j: int| 0 <= j < i + 1 && pseudo@[j] == x;
                    if j < i {
                        assert(exists|j: int| 0 <= j < i && pseudo@[j] == x);
                    }
                }
            }
        }
        i = i + 1;
    }
    proof {
        assert(pseudo@.subrange(0, pseudo@.len() as int) =~= pseudo@);
        assert(generated_in_order(b0, pseudo@));
        assert(legal_moves@ == pseudo@.filter(keeps_king_safe(b0)));
        reveal(legal_list);
        assert(legal_list(b0, legal_moves@));
        assert forall|x: Move| #[trigger] legal_moves@.contains(x) <==> legal(b0, x) by {
            if legal(b0, x) {
                assert(pseudo@.contains(x));
                let j = choose|j: int| 0 <= j < pseudo@.len() && pseudo@[j] == x;
                assert(pseudo@[j] == x);
            }
        }
    }
    legal_moves
}

/// Attack sets are computed on demand from the square and the occupancy, so nothing needs
/// building before the generators run; kept for callers that initialise first.
pub fn init() {
}

} // verus!
