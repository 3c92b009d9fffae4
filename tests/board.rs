use chess_engine::bitboard::{bb, Square, CASTLE_BLACK_KING, CASTLE_BLACK_QUEEN, CASTLE_WHITE_KING, CASTLE_WHITE_QUEEN};
use chess_engine::board::Board;
use chess_engine::moves::Move;
use chess_engine::piece::{Color, Piece};

#[test]
fn startpos_piece_count() {
    let b = Board::startpos();
    assert_eq!(b.occupied.count_ones(), 32);
}

#[test]
fn kings_in_correct_place() {
    let b = Board::startpos();
    assert_eq!(
        b.piece_at(Square::E1 as u8),
        Some((Color::White, Piece::King))
    );
    assert_eq!(
        b.piece_at(Square::E8 as u8),
        Some((Color::Black, Piece::King))
    );
}

#[test]
fn make_and_unmake_quiet_move() {
    let mut board = Board::startpos();

    let mv = Move {
        from: Square::G1 as u8,
        to: Square::F3 as u8,
        promotion: None,
    };

    let undo = board.make_move(mv);

    assert!(board.piece_at(Square::F3 as u8).is_some());
    assert!(board.piece_at(Square::G1 as u8).is_none());

    board.unmake_move(mv, undo);

    assert!(board.piece_at(Square::G1 as u8).is_some());
    assert!(board.piece_at(Square::F3 as u8).is_none());
}

#[test]
fn make_and_unmake_capture() {
    let mut board = Board::empty();

    board.pieces[0][Piece::Knight.index()] = bb(Square::E4 as u8);
    board.pieces[1][Piece::Pawn.index()] = bb(Square::D6 as u8);
    board.recompute_occupancy();

    let mv = Move {
        from: Square::E4 as u8,
        to: Square::D6 as u8,
        promotion: None,
    };

    let undo = board.make_move(mv);
    assert!(board.piece_at(Square::D6 as u8).unwrap().0 == Color::White);

    board.unmake_move(mv, undo);
    assert!(board.piece_at(Square::E4 as u8).is_some());
    assert!(board.piece_at(Square::D6 as u8).unwrap().0 == Color::Black);
}

#[test]
fn board_restored_exactly() {
    let mut board = Board::startpos();
    let original = board.clone();

    let mv = Move {
        from: Square::B1 as u8,
        to: Square::C3 as u8,
        promotion: None,
    };

    let undo = board.make_move(mv);
    board.unmake_move(mv, undo);

    assert_eq!(board.occupied, original.occupied);
    assert_eq!(board.side_to_move, original.side_to_move);
}

#[test]
fn knight_check() {
    let mut board = Board::empty();
    board.pieces[Color::White.index()][Piece::King.index()] = bb(Square::E4 as u8);
    board.pieces[Color::Black.index()][Piece::Knight.index()] = bb(Square::F6 as u8);
    board.recompute_occupancy();

    assert!(board.in_check(Color::White));
}

#[test]
fn bishop_check_blocked() {
    let mut board = Board::empty();
    board.pieces[0][Piece::King.index()] = bb(Square::E4 as u8);
    board.pieces[1][Piece::Bishop.index()] = bb(Square::A8 as u8);
    board.pieces[0][Piece::Pawn.index()] = bb(Square::C6 as u8);
    board.recompute_occupancy();

    assert!(!board.in_check(Color::White));
}

#[test]
fn rook_check() {
    let mut board = Board::empty();
    board.pieces[0][Piece::King.index()] = bb(Square::E1 as u8);
    board.pieces[1][Piece::Rook.index()] = bb(Square::E8 as u8);
    board.recompute_occupancy();

    assert!(board.in_check(Color::White));
}

#[test]
fn pawn_check() {
    let mut board = Board::empty();
    board.pieces[0][Piece::King.index()] = bb(Square::E4 as u8);
    board.pieces[1][Piece::Pawn.index()] = bb(Square::D5 as u8);
    board.recompute_occupancy();

    assert!(board.in_check(Color::White));
}

#[test]
fn king_adjacent_check() {
    let mut board = Board::empty();
    board.pieces[0][Piece::King.index()] = bb(Square::E4 as u8);
    board.pieces[1][Piece::King.index()] = bb(Square::E5 as u8);
    board.recompute_occupancy();

    assert!(board.in_check(Color::White));
}

#[test]
fn white_pawn_double_push_sets_en_passant() {
    let mut board = Board::startpos();
    
    let mv = Move {
        from: Square::E2 as u8,
        to: Square::E4 as u8,
        promotion: None,
    };
    
    board.make_move(mv);
    
    assert_eq!(board.en_passant_square, Some(Square::E3 as u8));
}

#[test]
fn black_pawn_double_push_sets_en_passant() {
    let mut board = Board::startpos();
    board.side_to_move = Color::Black;
    
    let mv = Move {
        from: Square::D7 as u8,
        to: Square::D5 as u8,
        promotion: None,
    };
    
    board.make_move(mv);
    
    assert_eq!(board.en_passant_square, Some(Square::D6 as u8));
}

#[test]
fn white_captures_en_passant() {
    let mut board = Board::empty();
    board.pieces[Color::White.index()][Piece::Pawn.index()] = bb(Square::E5 as u8);
    board.pieces[Color::Black.index()][Piece::Pawn.index()] = bb(Square::D5 as u8);
    board.en_passant_square = Some(Square::D6 as u8);
    board.recompute_occupancy();
    
    let mv = Move {
        from: Square::E5 as u8,
        to: Square::D6 as u8,
        promotion: None,
    };
    
    board.make_move(mv);
    
    // White pawn should be on d6
    assert!(board.pieces[Color::White.index()][Piece::Pawn.index()] & bb(Square::D6 as u8) != 0);
    // Black pawn on d5 should be captured
    assert!(board.pieces[Color::Black.index()][Piece::Pawn.index()] & bb(Square::D5 as u8) == 0);
    // Original square should be empty
    assert!(board.pieces[Color::White.index()][Piece::Pawn.index()] & bb(Square::E5 as u8) == 0);
}

#[test]
fn black_captures_en_passant() {
    let mut board = Board::empty();
    board.pieces[Color::Black.index()][Piece::Pawn.index()] = bb(Square::F4 as u8);
    board.pieces[Color::White.index()][Piece::Pawn.index()] = bb(Square::E4 as u8);
    board.en_passant_square = Some(Square::E3 as u8);
    board.side_to_move = Color::Black;
    board.recompute_occupancy();
    
    let mv = Move {
        from: Square::F4 as u8,
        to: Square::E3 as u8,
        promotion: None,
    };
    
    board.make_move(mv);
    
    // Black pawn should be on e3
    assert!(board.pieces[Color::Black.index()][Piece::Pawn.index()] & bb(Square::E3 as u8) != 0);
    // White pawn on e4 should be captured
    assert!(board.pieces[Color::White.index()][Piece::Pawn.index()] & bb(Square::E4 as u8) == 0);
    // Original square should be empty
    assert!(board.pieces[Color::Black.index()][Piece::Pawn.index()] & bb(Square::F4 as u8) == 0);
}

#[test]
fn en_passant_cleared_after_other_move() {
    let mut board = Board::startpos();
    
    // White pawn double push
    let mv1 = Move {
        from: Square::E2 as u8,
        to: Square::E4 as u8,
        promotion: None,
    };
    board.make_move(mv1);
    assert_eq!(board.en_passant_square, Some(Square::E3 as u8));
    
    // Black makes a different move
    let mv2 = Move {
        from: Square::B8 as u8,
        to: Square::C6 as u8,
        promotion: None,
    };
    board.make_move(mv2);
    
    // En passant should be cleared
    assert_eq!(board.en_passant_square, None);
}

#[test]
fn unmake_en_passant_capture() {
    let mut board = Board::empty();
    board.pieces[Color::White.index()][Piece::Pawn.index()] = bb(Square::E5 as u8);
    board.pieces[Color::Black.index()][Piece::Pawn.index()] = bb(Square::D5 as u8);
    board.en_passant_square = Some(Square::D6 as u8);
    board.recompute_occupancy();
    
    let original = board.clone();
    
    let mv = Move {
        from: Square::E5 as u8,
        to: Square::D6 as u8,
        promotion: None,
    };
    
    let undo = board.make_move(mv);
    board.unmake_move(mv, undo);
    
    // Board should be restored exactly
    assert_eq!(board.pieces[Color::White.index()][Piece::Pawn.index()], 
               original.pieces[Color::White.index()][Piece::Pawn.index()]);
    assert_eq!(board.pieces[Color::Black.index()][Piece::Pawn.index()], 
               original.pieces[Color::Black.index()][Piece::Pawn.index()]);
    assert_eq!(board.en_passant_square, original.en_passant_square);
}

#[test]
fn white_kingside_castle_moves_rook() {
    let mut board = Board::empty();
    board.pieces[Color::White.index()][Piece::King.index()] = bb(Square::E1 as u8);
    board.pieces[Color::White.index()][Piece::Rook.index()] = bb(Square::H1 as u8);
    board.castling_rights = CASTLE_WHITE_KING;
    board.recompute_occupancy();
    
    let mv = Move {
        from: Square::E1 as u8,
        to: Square::G1 as u8,
        promotion: None,
    };
    
    board.make_move(mv);
    
    // King should be on g1
    assert!(board.pieces[Color::White.index()][Piece::King.index()] & bb(Square::G1 as u8) != 0);
    // Rook should be on f1
    assert!(board.pieces[Color::White.index()][Piece::Rook.index()] & bb(Square::F1 as u8) != 0);
    // Rook should not be on h1
    assert!(board.pieces[Color::White.index()][Piece::Rook.index()] & bb(Square::H1 as u8) == 0);
}

#[test]
fn white_queenside_castle_moves_rook() {
    let mut board = Board::empty();
    board.pieces[Color::White.index()][Piece::King.index()] = bb(Square::E1 as u8);
    board.pieces[Color::White.index()][Piece::Rook.index()] = bb(Square::A1 as u8);
    board.castling_rights = CASTLE_WHITE_QUEEN;
    board.recompute_occupancy();
    
    let mv = Move {
        from: Square::E1 as u8,
        to: Square::C1 as u8,
        promotion: None,
    };
    
    board.make_move(mv);
    
    // King should be on c1
    assert!(board.pieces[Color::White.index()][Piece::King.index()] & bb(Square::C1 as u8) != 0);
    // Rook should be on d1
    assert!(board.pieces[Color::White.index()][Piece::Rook.index()] & bb(Square::D1 as u8) != 0);
    // Rook should not be on a1
    assert!(board.pieces[Color::White.index()][Piece::Rook.index()] & bb(Square::A1 as u8) == 0);
}

#[test]
fn black_kingside_castle_moves_rook() {
    let mut board = Board::empty();
    board.pieces[Color::Black.index()][Piece::King.index()] = bb(Square::E8 as u8);
    board.pieces[Color::Black.index()][Piece::Rook.index()] = bb(Square::H8 as u8);
    board.castling_rights = CASTLE_BLACK_KING;
    board.side_to_move = Color::Black;
    board.recompute_occupancy();
    
    let mv = Move {
        from: Square::E8 as u8,
        to: Square::G8 as u8,
        promotion: None,
    };
    
    board.make_move(mv);
    
    // King should be on g8
    assert!(board.pieces[Color::Black.index()][Piece::King.index()] & bb(Square::G8 as u8) != 0);
    // Rook should be on f8
    assert!(board.pieces[Color::Black.index()][Piece::Rook.index()] & bb(Square::F8 as u8) != 0);
    // Rook should not be on h8
    assert!(board.pieces[Color::Black.index()][Piece::Rook.index()] & bb(Square::H8 as u8) == 0);
}

#[test]
fn black_queenside_castle_moves_rook() {
    let mut board = Board::empty();
    board.pieces[Color::Black.index()][Piece::King.index()] = bb(Square::E8 as u8);
    board.pieces[Color::Black.index()][Piece::Rook.index()] = bb(Square::A8 as u8);
    board.castling_rights = CASTLE_BLACK_QUEEN;
    board.side_to_move = Color::Black;
    board.recompute_occupancy();
    
    let mv = Move {
        from: Square::E8 as u8,
        to: Square::C8 as u8,
        promotion: None,
    };
    
    board.make_move(mv);
    
    // King should be on c8
    assert!(board.pieces[Color::Black.index()][Piece::King.index()] & bb(Square::C8 as u8) != 0);
    // Rook should be on d8
    assert!(board.pieces[Color::Black.index()][Piece::Rook.index()] & bb(Square::D8 as u8) != 0);
    // Rook should not be on a8
    assert!(board.pieces[Color::Black.index()][Piece::Rook.index()] & bb(Square::A8 as u8) == 0);
}

#[test]
fn castling_rights_removed_after_king_move() {
    let mut board = Board::startpos();
    
    let mv = Move {
        from: Square::E1 as u8,
        to: Square::E2 as u8,
        promotion: None,
    };
    
    board.make_move(mv);
    
    // White should lose both castling rights
    assert_eq!(board.castling_rights & (CASTLE_WHITE_KING | CASTLE_WHITE_QUEEN), 0);
    // Black should still have castling rights
    assert_ne!(board.castling_rights & (CASTLE_BLACK_KING | CASTLE_BLACK_QUEEN), 0);
}

#[test]
fn castling_rights_removed_after_rook_move() {
    let mut board = Board::startpos();
    
    // Move h1 rook
    let mv = Move {
        from: Square::H1 as u8,
        to: Square::H2 as u8,
        promotion: None,
    };
    
    board.make_move(mv);
    
    // White should lose kingside castling only
    assert_eq!(board.castling_rights & CASTLE_WHITE_KING, 0);
    assert_ne!(board.castling_rights & CASTLE_WHITE_QUEEN, 0);
}

#[test]
fn castling_rights_removed_when_rook_captured() {
    let mut board = Board::empty();
    board.pieces[Color::White.index()][Piece::Rook.index()] = bb(Square::A1 as u8) | bb(Square::H1 as u8);
    board.pieces[Color::White.index()][Piece::King.index()] = bb(Square::E1 as u8);
    board.pieces[Color::Black.index()][Piece::Bishop.index()] = bb(Square::C3 as u8);
    board.pieces[Color::Black.index()][Piece::King.index()] = bb(Square::E8 as u8);
    board.castling_rights = CASTLE_WHITE_KING | CASTLE_WHITE_QUEEN;
    board.side_to_move = Color::Black;
    board.recompute_occupancy();
    
    // Black bishop captures a1 rook
    let mv = Move {
        from: Square::C3 as u8,
        to: Square::A1 as u8,
        promotion: None,
    };
    
    board.make_move(mv);
    
    // White should lose queenside castling
    assert_eq!(board.castling_rights & CASTLE_WHITE_QUEEN, 0);
    // But still have kingside
    assert_ne!(board.castling_rights & CASTLE_WHITE_KING, 0);
}

#[test]
fn unmake_castle_restores_pieces() {
    let mut board = Board::empty();
    board.pieces[Color::White.index()][Piece::King.index()] = bb(Square::E1 as u8);
    board.pieces[Color::White.index()][Piece::Rook.index()] = bb(Square::H1 as u8);
    board.castling_rights = CASTLE_WHITE_KING;
    board.recompute_occupancy();
    
    let original = board.clone();
    
    let mv = Move {
        from: Square::E1 as u8,
        to: Square::G1 as u8,
        promotion: None,
    };
    
    let undo = board.make_move(mv);
    board.unmake_move(mv, undo);
    
    // Board should be restored exactly
    assert_eq!(board.pieces[Color::White.index()][Piece::King.index()], 
               original.pieces[Color::White.index()][Piece::King.index()]);
    assert_eq!(board.pieces[Color::White.index()][Piece::Rook.index()], 
               original.pieces[Color::White.index()][Piece::Rook.index()]);
    assert_eq!(board.castling_rights, original.castling_rights);
}

#[test]
fn castling_rights_restored_on_unmake() {
    let mut board = Board::startpos();
    let original_rights = board.castling_rights;
    
    let mv = Move {
        from: Square::E1 as u8,
        to: Square::E2 as u8,
        promotion: None,
    };
    
    let undo = board.make_move(mv);
    board.unmake_move(mv, undo);
    
    assert_eq!(board.castling_rights, original_rights);
}
