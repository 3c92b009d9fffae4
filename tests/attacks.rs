use chess_engine::attacks::{bishop_attacks, black_pawn_attacks, king_attacks, knight_attacks, queen_attacks, rook_attacks, white_pawn_attacks};
use chess_engine::bitboard::{bb, Square};

#[test]
fn knight_center() {
    assert_eq!(knight_attacks(Square::E4 as u8).count_ones(), 8);
}

#[test]
fn king_center() {
    assert_eq!(king_attacks(Square::E4 as u8).count_ones(), 8);
}

#[test]
fn white_pawn_center() {
    assert_eq!(white_pawn_attacks(Square::E4 as u8).count_ones(), 2);
}

#[test]
fn black_pawn_center() {
    assert_eq!(black_pawn_attacks(Square::E5 as u8).count_ones(), 2);
}

#[test]
fn rook_blocked() {
    let rook = Square::D4 as u8;
    let blocker = bb(Square::D6 as u8);
    let occupied = blocker;

    let attacks = rook_attacks(rook, occupied);

    assert!(attacks & bb(Square::D5 as u8) != 0);
    assert!(attacks & bb(Square::D6 as u8) != 0);
    assert!(attacks & bb(Square::D7 as u8) == 0);
}

#[test]
fn bishop_center_no_blockers() {
    let attacks = bishop_attacks(Square::D4 as u8, 0);
    assert_eq!(attacks.count_ones(), 13);
}

#[test]
fn bishop_blocked_ne() {
    let bishop = Square::D4 as u8;
    let blocker = bb(Square::F6 as u8);
    let occupied = blocker;

    let attacks = bishop_attacks(bishop, occupied);

    assert!(attacks & bb(Square::E5 as u8) != 0);
    assert!(attacks & bb(Square::F6 as u8) != 0);
    assert!(attacks & bb(Square::G7 as u8) == 0);
}

#[test]
fn bishop_blocked_adjacent() {
    let bishop = Square::D4 as u8;
    let blocker = bb(Square::C5 as u8);
    let occupied = blocker;

    let attacks = bishop_attacks(bishop, occupied);

    assert!(attacks & bb(Square::C5 as u8) != 0);
    assert!(attacks & bb(Square::B6 as u8) == 0);
}

#[test]
fn queen_blocked_mixed() {
    let queen = Square::D4 as u8;
    let occupied =
        bb(Square::D6 as u8) |
        bb(Square::F6 as u8);

    let attacks = queen_attacks(queen, occupied);

    // Rook direction
    assert!(attacks & bb(Square::D5 as u8) != 0);
    assert!(attacks & bb(Square::D6 as u8) != 0);
    assert!(attacks & bb(Square::D7 as u8) == 0);

    // Bishop direction
    assert!(attacks & bb(Square::E5 as u8) != 0);
    assert!(attacks & bb(Square::F6 as u8) != 0);
    assert!(attacks & bb(Square::G7 as u8) == 0);
}

#[test]
fn queen_corner_a1() {
    let attacks = queen_attacks(Square::A1 as u8, 0);

    // Rook
    assert!(attacks & bb(Square::A8 as u8) != 0);
    assert!(attacks & bb(Square::H1 as u8) != 0);

    // Bishop
    assert!(attacks & bb(Square::H8 as u8) != 0);

    // Wraparound checks
    assert!(attacks & bb(Square::H2 as u8) == 0);
}
