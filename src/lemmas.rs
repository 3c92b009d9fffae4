use vstd::prelude::*;
use crate::bitboard::{has_bit, lemma_has_or, square_mask};
use crate::bitboard::{lemma_bit_ops, lemma_has_and_not};
use crate::board::{
    lemma_rights_shrink, next_rights, rights_within, color_rights, corner_right,
    abs_diff, all_union, castle_rook, color_union, ep_victim, first_at,
    is_ep_capture, make_board, make_undo, moved_index, stage_capture,
    stage_castle, stage_en_passant, stage_lift, stage_promote, undo_is_castle, unmake_board,
    unmake_retreat, victim_index, wf, with_bits, Board,
};
use crate::movegen::{
    castle_move, enemy_bits, own_bits, pawn_double, pawn_move, pawn_take,
    piece_move, pseudo_legal, side,
};
use crate::moves::Move;
use crate::board::{disjoint_pieces, start_board, with_occupancy};
use crate::bitboard::{RANK_2, RANK_7};
use crate::movegen::legal;
use crate::piece::{color_index, opposite_spec, piece_index, piece_of_index};
use crate::attacks::{king_mask, lemma_king_mask_near};

verus! {

broadcast use vstd::array::group_array_axioms;

/// Reading an entry of a board with one entry replaced.
pub broadcast proof fn lemma_with_bits_entry(b: Board, c: int, p: int, v: u64, cb: int, pb: int)
    requires
        0 <= c < 2,
        0 <= p < 6,
        0 <= cb < 2,
        0 <= pb < 6,
    ensures
        #[trigger] with_bits(b, c, p, v).pieces[cb][pb] == if cb == c && pb == p {
            v
        } else {
            b.pieces[cb][pb]
        },
{
}

/// The first kind holding `sq` is `j` when `j` holds it and none before it does.
pub proof fn lemma_first_at_is(row: [u64; 6], sq: int, j: int, k: int)
    requires
        0 <= k <= j < 6,
        has_bit(row[j], sq),
        forall|i: int| k <= i < j ==> !has_bit(#[trigger] row[i], sq),
    ensures
        first_at(row, sq, k) == j,
    decreases j - k,
{
    if k < j {
        lemma_first_at_is(row, sq, j, k + 1);
    }
}

/// No kind holds `sq`.
pub proof fn lemma_first_at_none(row: [u64; 6], sq: int, k: int)
    requires
        0 <= k <= 6,
        forall|i: int| k <= i < 6 ==> !has_bit(#[trigger] row[i], sq),
    ensures
        first_at(row, sq, k) == 6,
    decreases 6 - k,
{
    if k < 6 {
        lemma_first_at_none(row, sq, k + 1);
    }
}

/// A square is in a color's union exactly when one of its six sets holds it.
pub proof fn lemma_color_union_has(row: [u64; 6], s: int)
    ensures
        has_bit(color_union(row), s) == (has_bit(row[0], s) || has_bit(row[1], s) || has_bit(
            row[2],
            s,
        ) || has_bit(row[3], s) || has_bit(row[4], s) || has_bit(row[5], s)),
{
    lemma_has_or(row[0] | row[1] | row[2] | row[3] | row[4], row[5], s);
    lemma_has_or(row[0] | row[1] | row[2] | row[3], row[4], s);
    lemma_has_or(row[0] | row[1] | row[2], row[3], s);
    lemma_has_or(row[0] | row[1], row[2], s);
    lemma_has_or(row[0], row[1], s);
}

/// A square is occupied exactly when one of the twelve sets holds it.
pub proof fn lemma_all_union_has(pieces: [[u64; 6]; 2], s: int)
    ensures
        has_bit(all_union(pieces), s) == (exists|c: int, p: int|
            0 <= c < 2 && 0 <= p < 6 && #[trigger] has_bit(pieces[c][p], s)),
{
    lemma_has_or(color_union(pieces[0]), color_union(pieces[1]), s);
    lemma_color_union_has(pieces[0], s);
    lemma_color_union_has(pieces[1], s);
    if has_bit(all_union(pieces), s) {
        if has_bit(color_union(pieces[0]), s) {
            if has_bit(pieces[0][0], s) { assert(has_bit(pieces[0][0], s)); }
            else if has_bit(pieces[0][1], s) { assert(has_bit(pieces[0][1], s)); }
            else if has_bit(pieces[0][2], s) { assert(has_bit(pieces[0][2], s)); }
            else if has_bit(pieces[0][3], s) { assert(has_bit(pieces[0][3], s)); }
            else if has_bit(pieces[0][4], s) { assert(has_bit(pieces[0][4], s)); }
            else { assert(has_bit(pieces[0][5], s)); }
        } else {
            if has_bit(pieces[1][0], s) { assert(has_bit(pieces[1][0], s)); }
            else if has_bit(pieces[1][1], s) { assert(has_bit(pieces[1][1], s)); }
            else if has_bit(pieces[1][2], s) { assert(has_bit(pieces[1][2], s)); }
            else if has_bit(pieces[1][3], s) { assert(has_bit(pieces[1][3], s)); }
            else if has_bit(pieces[1][4], s) { assert(has_bit(pieces[1][4], s)); }
            else { assert(has_bit(pieces[1][5], s)); }
        }
    }
    if exists|c: int, p: int| 0 <= c < 2 && 0 <= p < 6 && #[trigger] has_bit(pieces[c][p], s) {
        let (c, p) = choose|c: int, p: int| 0 <= c < 2 && 0 <= p < 6 && #[trigger] has_bit(pieces[c][p], s);
        assert(c == 0 || c == 1);
        assert(p == 0 || p == 1 || p == 2 || p == 3 || p == 4 || p == 5);
    }
}

/// Moving a set's member from `f` to a non-member `t` and back restores the set.
pub proof fn lemma_move_back(x: u64, f: u64, t: u64)
    by (bit_vector)
    requires
        f < 64,
        t < 64,
        (x >> f) & 1 == 1,
        (x >> t) & 1 != 1,
    ensures
        ((((x ^ (1u64 << f)) | (1u64 << t)) ^ (1u64 << t)) | (1u64 << f)) == x,
{
}

/// Removing a member and adding it back restores the set.
pub proof fn lemma_remove_back(y: u64, v: u64)
    by (bit_vector)
    requires
        v < 64,
        (y >> v) & 1 == 1,
    ensures
        (y ^ (1u64 << v)) | (1u64 << v) == y,
{
}

/// Adding a non-member and removing it restores the set.
pub proof fn lemma_add_back(z: u64, t: u64)
    by (bit_vector)
    requires
        t < 64,
        (z >> t) & 1 != 1,
    ensures
        (z | (1u64 << t)) ^ (1u64 << t) == z,
{
}

/// After moving a member from `f` to `t`, `t` is a member and other squares are unchanged.
pub proof fn lemma_has_moved(x: u64, f: int, t: int, s: int)
    requires
        0 <= f < 64,
        0 <= t < 64,
        has_bit(x, f),
    ensures
        has_bit((x ^ square_mask(f)) | square_mask(t), s) == (s == t || (s != f && has_bit(x, s))),
{
    if 0 <= s < 64 {
        lemma_moved_bits(x, f as u64, t as u64, s as u64);
    }
}

proof fn lemma_moved_bits(x: u64, f: u64, t: u64, i: u64)
    by (bit_vector)
    requires
        f < 64,
        t < 64,
        i < 64,
        (x >> f) & 1 == 1,
    ensures
        ((((x ^ (1u64 << f)) | (1u64 << t)) >> i) & 1 == 1) == (i == t || (i != f && (x >> i) & 1
            == 1)),
{
}

/// The kind of the piece a pseudo-legal move starts from.
pub open spec fn mover_kind(b: Board, m: Move) -> int {
    if pawn_move(b, m) {
        0
    } else if piece_move(b, 1, m) {
        1
    } else if piece_move(b, 2, m) {
        2
    } else if piece_move(b, 3, m) {
        3
    } else if piece_move(b, 4, m) {
        4
    } else {
        5
    }
}

/// On a well-formed board a pseudo-legal move starts from a piece of the side to move, of
/// kind `mover_kind`, and lands on a square with no piece of that side.
pub proof fn lemma_pseudo_facts(b: Board, m: Move)
    requires
        wf(b),
        pseudo_legal(b, m),
    ensures
        m.from < 64,
        m.to < 64,
        has_bit(b.pieces[side(b)][mover_kind(b, m)], m.from as int),
        moved_index(b, m) == mover_kind(b, m),
        forall|i: int| 0 <= i < 6 ==> !has_bit(#[trigger] b.pieces[side(b)][i], m.to as int),
        castle_move(b, m) ==> mover_kind(b, m) == 5,
{
    let c = side(b);
    let e = color_index(opposite_spec(b.side_to_move));
    let f = m.from as int;
    let t = m.to as int;
    let pm = mover_kind(b, m);
    if castle_move(b, m) && !pawn_move(b, m) && !piece_move(b, 1, m) && !piece_move(b, 2, m)
        && !piece_move(b, 3, m) && !piece_move(b, 4, m) && !piece_move(b, 5, m) {
        assert(has_bit(b.pieces[c][5], f));
    }
    assert(has_bit(b.pieces[c][pm], f));
    assert forall|i: int| 0 <= i < pm implies !has_bit(#[trigger] b.pieces[c][i], f) by {
        assert(has_bit(b.pieces[c][pm], f));
    }
    lemma_first_at_is(b.pieces[c], f, pm, 0);
    assert forall|i: int| 0 <= i < 6 implies !has_bit(#[trigger] b.pieces[c][i], t) by {
        lemma_all_union_has(b.pieces, t);
        if pawn_move(b, m) {
            if pawn_take(b, m, -1) || pawn_take(b, m, 1) {
                if has_bit(enemy_bits(b), t) {
                    lemma_color_union_has(b.pieces[e], t);
                    let k = choose|k: int| 0 <= k < 6 && #[trigger] has_bit(b.pieces[e][k], t);
                    assert(has_bit(b.pieces[e][k], t));
                }
            }
        } else if castle_move(b, m) && !piece_move(b, 1, m) && !piece_move(b, 2, m)
            && !piece_move(b, 3, m) && !piece_move(b, 4, m) && !piece_move(b, 5, m) {
        } else {
            let p = choose|p: int| 1 <= p <= 5 && piece_move(b, p, m);
            lemma_has_and_not(
                if p == 1 {
                    crate::attacks::knight_mask(f)
                } else if p == 2 {
                    crate::attacks::bishop_mask(f, b.occupied)
                } else if p == 3 {
                    crate::attacks::rook_mask(f, b.occupied)
                } else if p == 4 {
                    crate::attacks::queen_mask(f, b.occupied)
                } else {
                    king_mask(f)
                },
                own_bits(b),
                t,
            );
            lemma_color_union_has(b.pieces[c], t);
        }
    }
}

/// Taking back a pseudo-legal move made on a well-formed board gives back the board, bit for
/// bit: piece sets, occupancy, side to move, castling rights and en-passant square.
#[verifier::rlimit(50)]
pub proof fn lemma_make_unmake(b: Board, m: Move)
    requires
        wf(b),
        pseudo_legal(b, m),
    ensures
        unmake_board(make_board(b, m), m, make_undo(b, m)) == b,
{
    broadcast use lemma_with_bits_entry;

    lemma_pseudo_facts(b, m);
    let c = side(b);
    let e = color_index(opposite_spec(b.side_to_move));
    let f = m.from as int;
    let t = m.to as int;
    let fu = m.from as u64;
    let tu = m.to as u64;
    let pm = mover_kind(b, m);
    let b1 = make_board(b, m);
    let u = make_undo(b, m);
    let b2 = unmake_board(b1, m, u);
    assert(e == 1 - c);

    // What stands on the destination on the enemy side.
    lemma_all_union_has(b.pieces, t);
    lemma_color_union_has(b.pieces[e], t);
    if exists|k: int| 0 <= k < 6 && #[trigger] has_bit(b.pieces[e][k], t) {
        let k = choose|k: int| 0 <= k < 6 && #[trigger] has_bit(b.pieces[e][k], t);
        assert forall|i: int| 0 <= i < k implies !has_bit(#[trigger] b.pieces[e][i], t) by {
            assert(has_bit(b.pieces[e][k], t));
        }
        lemma_first_at_is(b.pieces[e], t, k, 0);
        assert(victim_index(b, m) == k);
    } else {
        lemma_first_at_none(b.pieces[e], t, 0);
        assert(victim_index(b, m) == 6);
    }
    let pc = victim_index(b, m);
    if is_ep_capture(b, m) {
        assert(!has_bit(b.occupied, t));
        assert(pc == 6);
    }

    if castle_move(b, m) {
        let rook = castle_rook(b.side_to_move, t);
        let rf = rook.unwrap().0;
        let rt = rook.unwrap().1;
        assert(rook.is_some());
        assert(has_bit(b.pieces[c][3], rf));
        assert(!has_bit(b.occupied, rt));
        lemma_all_union_has(b.pieces, rt);
        assert(!has_bit(b.pieces[c][3], rt));
        assert(pc == 6);
        assert(stage_capture(b, m) == stage_lift(b, m));
        assert(stage_en_passant(b, m) == stage_lift(b, m));
        let k0 = b.pieces[c][5];
        let r0 = b.pieces[c][3];
        assert(b1.pieces[c][5] == (k0 ^ square_mask(f)) | square_mask(t));
        assert(b1.pieces[c][3] == (r0 ^ square_mask(rf)) | square_mask(rt));
        lemma_has_moved(k0, f, t, t);
        assert(undo_is_castle(b1, m, u));
        lemma_move_back(k0, fu, tu);
        lemma_move_back(r0, rf as u64, rt as u64);
        assert forall|cb: int, pb: int| 0 <= cb < 2 && 0 <= pb < 6 implies b2.pieces[cb][pb]
            == b.pieces[cb][pb] by {}
    } else {
        // Not a castle: the move is undone piece by piece.
        if pm == 5 {
            assert(piece_move(b, 5, m));
            lemma_has_and_not(king_mask(f), own_bits(b), t);
            lemma_king_mask_near(f, t);
            assert(t == (t / 8) * 8 + t % 8);
            assert(f == (f / 8) * 8 + f % 8);
            assert(abs_diff(f, t) != 2);
        }
        assert(stage_castle(b, m) == stage_promote(b, m));
        assert(!undo_is_castle(b1, m, u)) by {
            if pm != 5 {
                assert(b1.pieces[c][5] == b.pieces[c][5]);
            }
        }
        let x0 = b.pieces[c][pm];
        match m.promotion {
            Some(q) => {
                assert(pawn_move(b, m));
                assert(pm == 0);
                assert(1 <= q <= 4);
                assert(!is_ep_capture(b, m));
                let qi = q as int;
                let q0 = b.pieces[c][qi];
                assert(b1.pieces[c][0] == ((x0 ^ square_mask(f)) | square_mask(t)) ^ square_mask(t));
                assert(b1.pieces[c][qi] == q0 | square_mask(t));
                lemma_add_back(q0, tu);
                lemma_move_back(x0, fu, tu);
                let s0 = Board {
                    pieces: b1.pieces,
                    side_to_move: u.side_to_move,
                    occupied: b1.occupied,
                    castling_rights: u.castling_rights,
                    en_passant_square: u.en_passant_square,
                };
                let s1 = unmake_retreat(s0, m, u);
                assert(s1.pieces[c][0] == x0);
                assert(s1.pieces[c][qi] == q0);
                if pc < 6 {
                    let y0 = b.pieces[e][pc];
                    lemma_remove_back(y0, tu);
                    assert(u.en_passant_square != Some(m.to));
                    assert(piece_index(piece_of_index(pc)) == pc);
                }
                assert forall|cb: int, pb: int| 0 <= cb < 2 && 0 <= pb < 6 implies b2.pieces[cb][pb]
                    == b.pieces[cb][pb] by {}
            },
            None => {
                assert(b1.pieces[c][pm] == ((x0 ^ square_mask(f)) | square_mask(t)) || (
                is_ep_capture(b, m)));
                let s0 = Board {
                    pieces: b1.pieces,
                    side_to_move: u.side_to_move,
                    occupied: b1.occupied,
                    castling_rights: u.castling_rights,
                    en_passant_square: u.en_passant_square,
                };
                assert(s0.pieces[c][pm] == (x0 ^ square_mask(f)) | square_mask(t));
                lemma_has_moved(x0, f, t, t);
                assert forall|i: int| 0 <= i < pm implies !has_bit(#[trigger] s0.pieces[c][i], t) by {}
                lemma_first_at_is(s0.pieces[c], t, pm, 0);
                lemma_move_back(x0, fu, tu);
                let s1 = unmake_retreat(s0, m, u);
                assert(s1.pieces[c][pm] == x0);
                if is_ep_capture(b, m) {
                    let v = ep_victim(b.side_to_move, t);
                    let y0 = b.pieces[e][0];
                    assert(has_bit(y0, v));
                    assert(b1.pieces[e][0] == y0 ^ square_mask(v));
                    lemma_remove_back(y0, v as u64);
                    assert(has_bit(s1.pieces[c][0], f));
                } else if pc < 6 {
                    let y0 = b.pieces[e][pc];
                    assert(b1.pieces[e][pc] == y0 ^ square_mask(t));
                    lemma_remove_back(y0, tu);
                    assert(u.en_passant_square != Some(m.to));
                    assert(piece_index(piece_of_index(pc)) == pc);
                }
                assert forall|cb: int, pb: int| 0 <= cb < 2 && 0 <= pb < 6 implies b2.pieces[cb][pb]
                    == b.pieces[cb][pb] by {}
            },
        }
    }
    assert(b2.pieces[0] =~= b.pieces[0]);
    assert(b2.pieces[1] =~= b.pieces[1]);
    assert(b2.pieces =~= b.pieces);
}

/// Removing a member: the other squares stay.
pub proof fn lemma_has_removed(y: u64, v: int, s: int)
    requires
        0 <= v < 64,
    ensures
        has_bit(y ^ square_mask(v), s) == (if s == v { !has_bit(y, s) } else { has_bit(y, s) }),
{
    lemma_bit_ops();
    if 0 <= s < 64 {
        let i = s as u64;
        assert((((y ^ square_mask(v)) >> i) & 1 == 1) == ((y >> i) & 1 == 1 != (((1u64 << (v as u64)) >> i) & 1 == 1)));
        assert((((1u64 << (v as u64)) >> i) & 1 == 1) == (v as u64 == i));
        assert((v as u64 == i) == (s == v));
    }
}

/// Adding a square.
pub proof fn lemma_has_added(z: u64, t: int, s: int)
    requires
        0 <= t < 64,
    ensures
        has_bit(z | square_mask(t), s) == (has_bit(z, s) || (0 <= s < 64 && s == t)),
{
    lemma_bit_ops();
    if 0 <= s < 64 {
        let i = s as u64;
        assert((((z | square_mask(t)) >> i) & 1 == 1) == ((z >> i) & 1 == 1 || (((1u64 << (t as u64)) >> i) & 1 == 1)));
        assert((((1u64 << (t as u64)) >> i) & 1 == 1) == (t as u64 == i));
        assert((t as u64 == i) == (s == t));
    }
}

/// The piece kind that ends on the destination: the promotion piece, else the mover.
pub open spec fn arrival_kind(b: Board, m: Move) -> int {
    match m.promotion {
        Some(q) => q as int,
        None => mover_kind(b, m),
    }
}

/// The square a castling rook lands on.
pub open spec fn rook_landing(b: Board, m: Move) -> int {
    castle_rook(b.side_to_move, m.to as int).unwrap().1
}

/// Where each piece set of the board after a pseudo-legal move differs from before: it can
/// only gain the destination (the arriving piece's set) and, castling, the rook's landing
/// square, and it never keeps the destination otherwise.
#[verifier::rlimit(50)]
pub proof fn lemma_make_members(b: Board, m: Move)
    requires
        wf(b),
        pseudo_legal(b, m),
    ensures
        forall|cb: int, pb: int, s: int|
            0 <= cb < 2 && 0 <= pb < 6 && #[trigger] has_bit(make_board(b, m).pieces[cb][pb], s)
                ==> (has_bit(b.pieces[cb][pb], s) && s != m.to) || (cb == side(b) && pb
                == arrival_kind(b, m) && s == m.to) || (castle_move(b, m) && cb == side(b) && pb
                == 3 && s == rook_landing(b, m)),
        has_bit(make_board(b, m).pieces[side(b)][arrival_kind(b, m)], m.to as int),
        0 <= arrival_kind(b, m) < 6,
        make_board(b, m).occupied == all_union(make_board(b, m).pieces),
{
    broadcast use lemma_with_bits_entry;

    lemma_pseudo_facts(b, m);
    let c = side(b);
    let e = color_index(opposite_spec(b.side_to_move));
    let f = m.from as int;
    let t = m.to as int;
    let pm = mover_kind(b, m);
    let b1 = make_board(b, m);
    assert(e == 1 - c);
    lemma_all_union_has(b.pieces, t);
    lemma_color_union_has(b.pieces[e], t);
    if exists|k: int| 0 <= k < 6 && #[trigger] has_bit(b.pieces[e][k], t) {
        let k = choose|k: int| 0 <= k < 6 && #[trigger] has_bit(b.pieces[e][k], t);
        assert forall|i: int| 0 <= i < k implies !has_bit(#[trigger] b.pieces[e][i], t) by {
            assert(has_bit(b.pieces[e][k], t));
        }
        lemma_first_at_is(b.pieces[e], t, k, 0);
    } else {
        lemma_first_at_none(b.pieces[e], t, 0);
    }
    let pc = victim_index(b, m);
    assert(pc < 6 ==> has_bit(b.pieces[e][pc], t));
    assert(pc == 6 ==> forall|k: int| 0 <= k < 6 ==> !has_bit(#[trigger] b.pieces[e][k], t));
    if is_ep_capture(b, m) {
        assert(!has_bit(b.occupied, t));
        assert(pc == 6);
    }
    let x0 = b.pieces[c][pm];
    if castle_move(b, m) {
        let rf = castle_rook(b.side_to_move, t).unwrap().0;
        let rt = rook_landing(b, m);
        let r0 = b.pieces[c][3];
        assert(has_bit(r0, rf));
        assert(b1.pieces[c][5] == (x0 ^ square_mask(f)) | square_mask(t));
        assert(b1.pieces[c][3] == (r0 ^ square_mask(rf)) | square_mask(rt));
        assert forall|cb: int, pb: int, s: int|
            0 <= cb < 2 && 0 <= pb < 6 && #[trigger] has_bit(b1.pieces[cb][pb], s) implies (
            has_bit(b.pieces[cb][pb], s) && s != m.to) || (cb == c && pb == arrival_kind(b, m) && s
            == m.to) || (cb == c && pb == 3 && s == rt) by {
            lemma_has_moved(x0, f, t, s);
            lemma_has_moved(r0, rf, rt, s);
            if !(cb == c && (pb == 5 || pb == 3)) {
                assert(b1.pieces[cb][pb] == b.pieces[cb][pb]);
            }
        }
        lemma_has_moved(x0, f, t, t);
    } else {
        if pm == 5 {
            lemma_has_and_not(king_mask(f), own_bits(b), t);
            lemma_king_mask_near(f, t);
            assert(t == (t / 8) * 8 + t % 8);
            assert(f == (f / 8) * 8 + f % 8);
        }
        assert(stage_castle(b, m) == stage_promote(b, m));
        match m.promotion {
            Some(q) => {
                let qi = q as int;
                let q0 = b.pieces[c][qi];
                assert(pm == 0);
                assert(!is_ep_capture(b, m));
                let lifted = (x0 ^ square_mask(f)) | square_mask(t);
                assert(b1.pieces[c][0] == lifted ^ square_mask(t));
                assert(b1.pieces[c][qi] == q0 | square_mask(t));
                assert forall|cb: int, pb: int, s: int|
                    0 <= cb < 2 && 0 <= pb < 6 && #[trigger] has_bit(b1.pieces[cb][pb], s) implies (
                    has_bit(b.pieces[cb][pb], s) && s != m.to) || (cb == c && pb == arrival_kind(b, m)
                    && s == m.to) by {
                    lemma_has_moved(x0, f, t, s);
                    lemma_has_removed(lifted, t, s);
                    lemma_has_added(q0, t, s);
                    if pc < 6 {
                        lemma_has_removed(b.pieces[e][pc], t, s);
                    }
                    if !((cb == c && (pb == 0 || pb == qi)) || (cb == e && pb == pc)) {
                        assert(b1.pieces[cb][pb] == b.pieces[cb][pb]);
                    }
                }
                lemma_has_added(q0, t, t);
            },
            None => {
                assert(b1.pieces[c][pm] == (x0 ^ square_mask(f)) | square_mask(t));
                let v = ep_victim(b.side_to_move, t);
                assert forall|cb: int, pb: int, s: int|
                    0 <= cb < 2 && 0 <= pb < 6 && #[trigger] has_bit(b1.pieces[cb][pb], s) implies (
                    has_bit(b.pieces[cb][pb], s) && s != m.to) || (cb == c && pb == arrival_kind(b, m)
                    && s == m.to) by {
                    lemma_has_moved(x0, f, t, s);
                    if pc < 6 {
                        lemma_has_removed(b.pieces[e][pc], t, s);
                        assert(b1.pieces[e][pc] == b.pieces[e][pc] ^ square_mask(t));
                    }
                    if is_ep_capture(b, m) {
                        lemma_has_removed(b.pieces[e][0], v, s);
                        assert(b1.pieces[e][0] == b.pieces[e][0] ^ square_mask(v));
                    }
                    if !((cb == c && pb == pm) || (cb == e && pb == pc) || (cb == e && pb == 0
                        && is_ep_capture(b, m))) {
                        assert(b1.pieces[cb][pb] == b.pieces[cb][pb]);
                    }
                }
                lemma_has_moved(x0, f, t, t);
            },
        }
    }
}

/// A pseudo-legal move keeps a board well-formed.
#[verifier::rlimit(50)]
pub proof fn lemma_make_wf(b: Board, m: Move)
    requires
        wf(b),
        pseudo_legal(b, m),
    ensures
        wf(make_board(b, m)),
{
    lemma_pseudo_facts(b, m);
    lemma_make_members(b, m);
    let b1 = make_board(b, m);
    let c = side(b);
    let t = m.to as int;
    let f = m.from as int;
    let arr = arrival_kind(b, m);
    // No square holds two pieces.
    assert forall|ca: int, pa: int, cb: int, pb: int, s: int|
        0 <= ca < 2 && 0 <= pa < 6 && 0 <= cb < 2 && 0 <= pb < 6 && !(ca == cb && pa == pb)
            && #[trigger] has_bit(b1.pieces[ca][pa], s) implies !#[trigger] has_bit(
        b1.pieces[cb][pb],
        s,
    ) by {
        if has_bit(b1.pieces[cb][pb], s) {
            if castle_move(b, m) {
                let rt = rook_landing(b, m);
                lemma_all_union_has(b.pieces, rt);
                assert(!has_bit(b.occupied, rt));
            }
        }
    }
    // The en-passant square.
    match b1.en_passant_square {
        Some(ep) => {
            assert(mover_kind(b, m) == 0 && abs_diff(f, t) == 16);
            assert(pawn_move(b, m));
            assert(t == (t / 8) * 8 + t % 8);
            assert(f == (f / 8) * 8 + f % 8);
            assert(pawn_double(b, m));
            let mid = ep as int;
            let d = crate::movegen::forward(b.side_to_move);
            assert(mid == f + 8 * d);
            assert(!has_bit(b.occupied, mid));
            lemma_all_union_has(b.pieces, mid);
            lemma_all_union_has(b1.pieces, mid);
            assert(!has_bit(b1.occupied, mid));
            assert(arr == 0);
            assert(color_index(opposite_spec(b1.side_to_move)) == c);
            assert(ep_victim(b1.side_to_move, mid) == t);
        },
        None => {},
    }
}

/// The board after playing the first `n` moves of `ms` from `b`.
pub open spec fn play(b: Board, ms: Seq<Move>, n: nat) -> Board
    decreases n,
{
    if n == 0 || n > ms.len() {
        b
    } else {
        make_board(play(b, ms, (n - 1) as nat), ms[n - 1])
    }
}

/// A move never adds a castling right.
pub proof fn lemma_move_keeps_rights_within(b: Board, m: Move)
    ensures
        rights_within(make_board(b, m).castling_rights, b.castling_rights),
{
    lemma_rights_shrink();
    let r0 = b.castling_rights;
    let pm = moved_index(b, m);
    let r1 = if pm == 5 {
        r0 & !color_rights(b.side_to_move)
    } else if pm == 3 && corner_right(m.from as int) != 0 {
        r0 & !corner_right(m.from as int)
    } else {
        r0
    };
    assert(rights_within(r1, r0));
    assert(rights_within(next_rights(b, m), r1));
}

/// Castling rights only shrink: along any sequence of moves, the rights at a later point
/// hold no right that an earlier point lacked.
pub proof fn lemma_rights_monotone(b: Board, ms: Seq<Move>, i: nat, j: nat)
    requires
        i <= j <= ms.len(),
    ensures
        rights_within(play(b, ms, j).castling_rights, play(b, ms, i).castling_rights),
    decreases j - i,
{
    lemma_rights_shrink();
    if i < j {
        lemma_rights_monotone(b, ms, i, (j - 1) as nat);
        lemma_move_keeps_rights_within(play(b, ms, (j - 1) as nat), ms[j - 1]);
    }
}

/// The square of the pawn a pseudo-legal move takes en passant, or -1 if it takes none.
pub open spec fn ep_taken(b: Board, m: Move) -> int {
    if is_ep_capture(b, m) {
        ep_victim(b.side_to_move, m.to as int)
    } else {
        -1
    }
}

/// The corner a castling rook leaves, or -1 if the move is no castle.
pub open spec fn rook_leaving(b: Board, m: Move) -> int {
    if castle_move(b, m) {
        castle_rook(b.side_to_move, m.to as int).unwrap().0
    } else {
        -1
    }
}

/// The squares after a pseudo-legal move on a well-formed board: the arriving piece (the
/// mover, or what a pawn promotes to) alone stands on the destination; the origin, the square
/// of a pawn taken en passant and the corner a castling rook leaves are empty; the castling
/// rook stands next to the king; every other square keeps what stood on it.
#[verifier::rlimit(80)]
pub proof fn lemma_make_squares(b: Board, m: Move, cb: int, pb: int, s: int)
    requires
        wf(b),
        pseudo_legal(b, m),
        0 <= cb < 2,
        0 <= pb < 6,
        0 <= s < 64,
    ensures
        has_bit(make_board(b, m).pieces[cb][pb], s) == if s == m.to {
            cb == side(b) && pb == arrival_kind(b, m)
        } else if s == m.from || s == ep_taken(b, m) || s == rook_leaving(b, m) {
            false
        } else if castle_move(b, m) && s == rook_landing(b, m) {
            cb == side(b) && pb == 3
        } else {
            has_bit(b.pieces[cb][pb], s)
        },
{
    broadcast use lemma_with_bits_entry;

    lemma_pseudo_facts(b, m);
    lemma_make_members(b, m);
    let c = side(b);
    let e = color_index(opposite_spec(b.side_to_move));
    let f = m.from as int;
    let t = m.to as int;
    let pm = mover_kind(b, m);
    let b1 = make_board(b, m);
    assert(e == 1 - c);
    lemma_all_union_has(b.pieces, t);
    lemma_color_union_has(b.pieces[e], t);
    if exists|k: int| 0 <= k < 6 && #[trigger] has_bit(b.pieces[e][k], t) {
        let k = choose|k: int| 0 <= k < 6 && #[trigger] has_bit(b.pieces[e][k], t);
        assert forall|i: int| 0 <= i < k implies !has_bit(#[trigger] b.pieces[e][i], t) by {
            assert(has_bit(b.pieces[e][k], t));
        }
        lemma_first_at_is(b.pieces[e], t, k, 0);
    } else {
        lemma_first_at_none(b.pieces[e], t, 0);
    }
    let pc = victim_index(b, m);
    if is_ep_capture(b, m) {
        assert(!has_bit(b.occupied, t));
        assert(pc == 6);
    }
    // Only the mover's set holds the origin.
    if has_bit(b.pieces[cb][pb], f) {
        assert(cb == c && pb == pm);
    }
    let x0 = b.pieces[c][pm];
    lemma_has_moved(x0, f, t, s);
    if castle_move(b, m) {
        let rf = rook_leaving(b, m);
        let rt = rook_landing(b, m);
        let r0 = b.pieces[c][3];
        assert(has_bit(r0, rf));
        lemma_all_union_has(b.pieces, rt);
        lemma_all_union_has(b.pieces, rf);
        assert(b1.pieces[c][5] == (x0 ^ square_mask(f)) | square_mask(t));
        assert(b1.pieces[c][3] == (r0 ^ square_mask(rf)) | square_mask(rt));
        lemma_has_moved(r0, rf, rt, s);
        if has_bit(b.pieces[cb][pb], rf) {
            assert(cb == c && pb == 3);
        }
        if !(cb == c && (pb == 5 || pb == 3)) {
            assert(b1.pieces[cb][pb] == b.pieces[cb][pb]);
        }
    } else {
        if pm == 5 {
            lemma_has_and_not(king_mask(f), own_bits(b), t);
            lemma_king_mask_near(f, t);
            assert(t == (t / 8) * 8 + t % 8);
            assert(f == (f / 8) * 8 + f % 8);
        }
        assert(stage_castle(b, m) == stage_promote(b, m));
        match m.promotion {
            Some(q) => {
                let qi = q as int;
                let q0 = b.pieces[c][qi];
                assert(pm == 0);
                assert(!is_ep_capture(b, m));
                let lifted = (x0 ^ square_mask(f)) | square_mask(t);
                assert(b1.pieces[c][0] == lifted ^ square_mask(t));
                assert(b1.pieces[c][qi] == q0 | square_mask(t));
                lemma_has_removed(lifted, t, s);
                lemma_has_added(q0, t, s);
                lemma_has_moved(x0, f, t, t);
                if pc < 6 {
                    lemma_has_removed(b.pieces[e][pc], t, s);
                }
                if !((cb == c && (pb == 0 || pb == qi)) || (cb == e && pb == pc)) {
                    assert(b1.pieces[cb][pb] == b.pieces[cb][pb]);
                }
            },
            None => {
                assert(b1.pieces[c][pm] == (x0 ^ square_mask(f)) | square_mask(t));
                if pc < 6 {
                    lemma_has_removed(b.pieces[e][pc], t, s);
                    assert(b1.pieces[e][pc] == b.pieces[e][pc] ^ square_mask(t));
                }
                if is_ep_capture(b, m) {
                    let v = ep_victim(b.side_to_move, t);
                    lemma_has_removed(b.pieces[e][0], v, s);
                    assert(b1.pieces[e][0] == b.pieces[e][0] ^ square_mask(v));
                    assert(has_bit(b.pieces[e][0], v));
                    if has_bit(b.pieces[cb][pb], v) {
                        assert(cb == e && pb == 0);
                    }
                }
                if !((cb == c && pb == pm) || (cb == e && pb == pc) || (cb == e && pb == 0
                    && is_ep_capture(b, m))) {
                    assert(b1.pieces[cb][pb] == b.pieces[cb][pb]);
                }
            },
        }
    }
}

/// Sets with no common square share no square.
proof fn lemma_and_zero(a: u64, b: u64, s: int)
    requires
        a & b == 0,
    ensures
        !(has_bit(a, s) && has_bit(b, s)),
{
    lemma_bit_ops();
    if 0 <= s < 64 {
        let i = s as u64;
        assert((((a & b) >> i) & 1 == 1) == ((a >> i) & 1 == 1 && (b >> i) & 1 == 1));
    }
}

/// The starting position is well-formed.
pub proof fn lemma_start_wf()
    ensures
        wf(with_occupancy(start_board())),
{
    broadcast use lemma_with_bits_entry;

    let b = with_occupancy(start_board());
    let p = b.pieces;
    assert(p[0][0] == RANK_2 && p[1][0] == RANK_7);
    assert forall|ca: int, pa: int, cb: int, pb: int|
        0 <= ca < 2 && 0 <= pa < 6 && 0 <= cb < 2 && 0 <= pb < 6 && !(ca == cb && pa == pb)
            implies #[trigger] (p[ca][pa] & p[cb][pb]) == 0 by {
        assert(0x000000000000FF00u64 & 0x42u64 == 0
            && 0x000000000000FF00u64 & 0x24u64 == 0
            && 0x000000000000FF00u64 & 0x81u64 == 0
            && 0x000000000000FF00u64 & 0x8u64 == 0
            && 0x000000000000FF00u64 & 0x10u64 == 0
            && 0x42u64 & 0x24u64 == 0
            && 0x42u64 & 0x81u64 == 0
            && 0x42u64 & 0x8u64 == 0
            && 0x42u64 & 0x10u64 == 0
            && 0x24u64 & 0x81u64 == 0
            && 0x24u64 & 0x8u64 == 0
            && 0x24u64 & 0x10u64 == 0
            && 0x81u64 & 0x8u64 == 0
            && 0x81u64 & 0x10u64 == 0
            && 0x8u64 & 0x10u64 == 0
            && 0x00FF000000000000u64 & 0x4200000000000000u64 == 0
            && 0x00FF000000000000u64 & 0x2400000000000000u64 == 0
            && 0x00FF000000000000u64 & 0x8100000000000000u64 == 0
            && 0x00FF000000000000u64 & 0x0800000000000000u64 == 0
            && 0x00FF000000000000u64 & 0x1000000000000000u64 == 0
            && 0x4200000000000000u64 & 0x2400000000000000u64 == 0
            && 0x4200000000000000u64 & 0x8100000000000000u64 == 0
            && 0x4200000000000000u64 & 0x0800000000000000u64 == 0
            && 0x4200000000000000u64 & 0x1000000000000000u64 == 0
            && 0x2400000000000000u64 & 0x8100000000000000u64 == 0
            && 0x2400000000000000u64 & 0x0800000000000000u64 == 0
            && 0x2400000000000000u64 & 0x1000000000000000u64 == 0
            && 0x8100000000000000u64 & 0x0800000000000000u64 == 0
            && 0x8100000000000000u64 & 0x1000000000000000u64 == 0
            && 0x0800000000000000u64 & 0x1000000000000000u64 == 0
            && 0x000000000000FF00u64 & 0x00FF000000000000u64 == 0
            && 0x000000000000FF00u64 & 0x4200000000000000u64 == 0
            && 0x000000000000FF00u64 & 0x2400000000000000u64 == 0
            && 0x000000000000FF00u64 & 0x8100000000000000u64 == 0
            && 0x000000000000FF00u64 & 0x0800000000000000u64 == 0
            && 0x000000000000FF00u64 & 0x1000000000000000u64 == 0
            && 0x42u64 & 0x00FF000000000000u64 == 0
            && 0x42u64 & 0x4200000000000000u64 == 0
            && 0x42u64 & 0x2400000000000000u64 == 0
            && 0x42u64 & 0x8100000000000000u64 == 0
            && 0x42u64 & 0x0800000000000000u64 == 0
            && 0x42u64 & 0x1000000000000000u64 == 0
            && 0x24u64 & 0x00FF000000000000u64 == 0
            && 0x24u64 & 0x4200000000000000u64 == 0
            && 0x24u64 & 0x2400000000000000u64 == 0
            && 0x24u64 & 0x8100000000000000u64 == 0
            && 0x24u64 & 0x0800000000000000u64 == 0
            && 0x24u64 & 0x1000000000000000u64 == 0
            && 0x81u64 & 0x00FF000000000000u64 == 0
            && 0x81u64 & 0x4200000000000000u64 == 0
            && 0x81u64 & 0x2400000000000000u64 == 0
            && 0x81u64 & 0x8100000000000000u64 == 0
            && 0x81u64 & 0x0800000000000000u64 == 0
            && 0x81u64 & 0x1000000000000000u64 == 0
            && 0x8u64 & 0x00FF000000000000u64 == 0
            && 0x8u64 & 0x4200000000000000u64 == 0
            && 0x8u64 & 0x2400000000000000u64 == 0
            && 0x8u64 & 0x8100000000000000u64 == 0
            && 0x8u64 & 0x0800000000000000u64 == 0
            && 0x8u64 & 0x1000000000000000u64 == 0
            && 0x10u64 & 0x00FF000000000000u64 == 0
            && 0x10u64 & 0x4200000000000000u64 == 0
            && 0x10u64 & 0x2400000000000000u64 == 0
            && 0x10u64 & 0x8100000000000000u64 == 0
            && 0x10u64 & 0x0800000000000000u64 == 0
            && 0x10u64 & 0x1000000000000000u64 == 0) by (bit_vector);
        assert((1u64 << 1u64) | (1u64 << 6u64) == 0x42u64 && (1u64 << 2u64) | (1u64 << 5u64) == 0x24u64
            && (1u64 << 0u64) | (1u64 << 7u64) == 0x81u64 && 1u64 << 3u64 == 0x8u64 && 1u64 << 4u64
            == 0x10u64 && (1u64 << 57u64) | (1u64 << 62u64) == 0x4200000000000000u64 && (1u64
            << 58u64) | (1u64 << 61u64) == 0x2400000000000000u64 && (1u64 << 56u64) | (1u64
            << 63u64) == 0x8100000000000000u64 && 1u64 << 59u64 == 0x0800000000000000u64 && 1u64
            << 60u64 == 0x1000000000000000u64) by (bit_vector);
        assert(forall|x: u64, y: u64| #[trigger] (x & y) == y & x) by (bit_vector);
        assert(p[0][1] == 0x42u64 && p[0][2] == 0x24u64 && p[0][3] == 0x81u64 && p[0][4] == 0x8u64
            && p[0][5] == 0x10u64);
        assert(p[1][1] == 0x4200000000000000u64 && p[1][2] == 0x2400000000000000u64 && p[1][3]
            == 0x8100000000000000u64 && p[1][4] == 0x0800000000000000u64 && p[1][5]
            == 0x1000000000000000u64);
        assert(p[1][0] == 0x00FF000000000000u64 && p[0][0] == 0x000000000000FF00u64);
    }
    assert forall|ca: int, pa: int, cb: int, pb: int, s: int|
        0 <= ca < 2 && 0 <= pa < 6 && 0 <= cb < 2 && 0 <= pb < 6 && !(ca == cb && pa == pb)
            && #[trigger] has_bit(p[ca][pa], s) implies !#[trigger] has_bit(p[cb][pb], s) by {
        assert((p[ca][pa] & p[cb][pb]) == 0);
        lemma_and_zero(p[ca][pa], p[cb][pb], s);
    }
    assert(disjoint_pieces(b));
}

/// Every position reached from the start by legal moves is well-formed, so the round trip,
/// the legality of generated moves and the absence of duplicates hold there.
pub proof fn lemma_reachable_wf(ms: Seq<Move>, n: nat)
    requires
        n <= ms.len(),
        forall|i: int| 0 <= i < n ==> legal(play(with_occupancy(start_board()), ms, i as nat), #[trigger] ms[i]),
    ensures
        wf(play(with_occupancy(start_board()), ms, n)),
    decreases n,
{
    if n == 0 {
        lemma_start_wf();
    } else {
        lemma_reachable_wf(ms, (n - 1) as nat);
        let prev = play(with_occupancy(start_board()), ms, (n - 1) as nat);
        assert(legal(prev, ms[n - 1]));
        lemma_make_wf(prev, ms[n - 1]);
    }
}

} // verus!
