use chess_engine::bitboard::{bb, Square, CASTLE_WHITE_KING};
use chess_engine::board::Board;
use chess_engine::eval::evaluate;
use chess_engine::movegen::{generate_legal_moves, generate_moves};
use chess_engine::moves::Move;
use chess_engine::perft::perft;
use chess_engine::piece::{index_to_piece, Color, Piece};
use chess_engine::search::search;

fn mv(from: Square, to: Square) -> Move {
    Move { from: from as u8, to: to as u8, promotion: None }
}

fn same_board(a: &Board, b: &Board) -> bool {
    a.pieces == b.pieces
        && a.occupied == b.occupied
        && a.side_to_move == b.side_to_move
        && a.castling_rights == b.castling_rights
        && a.en_passant_square == b.en_passant_square
}

#[test]
fn startpos_has_twenty_legal_moves() {
    let mut board = Board::startpos();
    assert_eq!(generate_legal_moves(&mut board).len(), 20);
}

#[test]
fn perft_after_a2a4() {
    let mut board = Board::startpos();
    board.make_move(mv(Square::A2, Square::A4));
    assert_eq!(perft(&mut board, 4), 217_832);
}

#[test]
fn perft_depth_zero_is_one() {
    let mut board = Board::startpos();
    assert_eq!(perft(&mut board, 0), 1);
}

#[test]
fn perft_leaves_board_unchanged() {
    let mut board = Board::startpos();
    let before = board.clone();
    assert_eq!(perft(&mut board, 3), 8_902);
    assert!(same_board(&board, &before));
}

#[test]
fn every_legal_move_round_trips() {
    let mut board = Board::startpos();
    for m in ["e2e4", "d7d5", "e4d5", "g8f6", "f1b5", "c7c6"] {
        board.make_move(Move::from_uci(m).unwrap());
    }
    let before = board.clone();
    let moves = generate_legal_moves(&mut board);
    assert!(!moves.is_empty());
    for m in moves {
        let undo = board.make_move(m);
        board.unmake_move(m, undo);
        assert!(same_board(&board, &before));
    }
}

#[test]
fn legal_moves_never_leave_king_attacked() {
    let mut board = Board::startpos();
    for m in ["e2e4", "e7e5", "d1h5", "b8c6", "f1c4", "g8f6"] {
        board.make_move(Move::from_uci(m).unwrap());
    }
    let mover = board.side_to_move;
    let moves = generate_legal_moves(&mut board);
    for m in moves {
        let undo = board.make_move(m);
        assert!(!board.in_check(mover));
        board.unmake_move(m, undo);
    }
}

#[test]
fn pinned_piece_cannot_move() {
    let mut board = Board::empty();
    board.pieces[0][Piece::King.index()] = bb(Square::E1 as u8);
    board.pieces[0][Piece::Knight.index()] = bb(Square::E2 as u8);
    board.pieces[1][Piece::Rook.index()] = bb(Square::E8 as u8);
    board.pieces[1][Piece::King.index()] = bb(Square::A8 as u8);
    board.recompute_occupancy();
    let moves = generate_legal_moves(&mut board);
    assert!(moves.iter().all(|m| m.from != Square::E2 as u8));
    assert_eq!(generate_moves(&board).iter().filter(|m| m.from == Square::E2 as u8).count(), 6);
}

#[test]
fn castling_rights_only_shrink() {
    let mut board = Board::startpos();
    let mut rights = board.castling_rights;
    for m in ["e2e4", "e7e5", "g1f3", "b8c6", "f1c4", "f8c5", "e1g1", "a8b8", "h2h3", "b8a8"] {
        board.make_move(Move::from_uci(m).unwrap());
        assert_eq!(board.castling_rights & !rights, 0);
        rights = board.castling_rights;
    }
    assert_eq!(rights, 0b0100);
}

#[test]
fn en_passant_window_is_one_move() {
    let mut board = Board::startpos();
    board.make_move(mv(Square::E2, Square::E3));
    assert_eq!(board.en_passant_square, None);
    board.make_move(mv(Square::D7, Square::D5));
    assert_eq!(board.en_passant_square, Some(Square::D6 as u8));
    board.make_move(mv(Square::E3, Square::E4));
    assert_eq!(board.en_passant_square, None);
}

#[test]
fn en_passant_capture_is_generated() {
    let mut board = Board::startpos();
    for m in ["e2e4", "a7a6", "e4e5", "d7d5"] {
        board.make_move(Move::from_uci(m).unwrap());
    }
    let moves = generate_legal_moves(&mut board);
    assert!(moves.contains(&mv(Square::E5, Square::D6)));
}

#[test]
fn knight_gives_check() {
    let mut board = Board::empty();
    board.pieces[Color::White.index()][Piece::King.index()] = bb(Square::E4 as u8);
    board.pieces[Color::Black.index()][Piece::Knight.index()] = bb(Square::F6 as u8);
    board.recompute_occupancy();
    assert!(board.in_check(Color::White));
}

#[test]
fn blocked_bishop_gives_no_check() {
    let mut board = Board::empty();
    board.pieces[0][Piece::King.index()] = bb(Square::E4 as u8);
    board.pieces[1][Piece::Bishop.index()] = bb(Square::A8 as u8);
    board.pieces[0][Piece::Pawn.index()] = bb(Square::C6 as u8);
    board.recompute_occupancy();
    assert!(!board.in_check(Color::White));
    board.pieces[0][Piece::Pawn.index()] = 0;
    board.recompute_occupancy();
    assert!(board.in_check(Color::White));
}

fn castle_board() -> Board {
    let mut board = Board::empty();
    board.pieces[0][Piece::King.index()] = bb(Square::E1 as u8);
    board.pieces[0][Piece::Rook.index()] = bb(Square::H1 as u8);
    board.pieces[1][Piece::King.index()] = bb(Square::A8 as u8);
    board.castling_rights = CASTLE_WHITE_KING;
    board.recompute_occupancy();
    board
}

#[test]
fn castle_generated_when_path_free() {
    let mut board = castle_board();
    let castle = mv(Square::E1, Square::G1);
    assert!(generate_legal_moves(&mut board).contains(&castle));
    board.make_move(castle);
    let rooks = board.pieces[0][Piece::Rook.index()];
    assert_ne!(rooks & bb(Square::F1 as u8), 0);
    assert_eq!(rooks & bb(Square::H1 as u8), 0);
    assert_eq!(board.castling_rights, 0);
}

#[test]
fn castle_not_generated_through_piece() {
    let mut board = castle_board();
    board.pieces[0][Piece::Bishop.index()] = bb(Square::F1 as u8);
    board.recompute_occupancy();
    assert!(!generate_legal_moves(&mut board).contains(&mv(Square::E1, Square::G1)));
}

#[test]
fn castle_not_generated_through_attack() {
    let mut board = castle_board();
    board.pieces[1][Piece::Rook.index()] = bb(Square::F8 as u8);
    board.recompute_occupancy();
    assert!(!generate_legal_moves(&mut board).contains(&mv(Square::E1, Square::G1)));
    board.pieces[1][Piece::Rook.index()] = bb(Square::G8 as u8);
    board.recompute_occupancy();
    assert!(!generate_legal_moves(&mut board).contains(&mv(Square::E1, Square::G1)));
}

#[test]
fn castle_not_generated_in_check() {
    let mut board = castle_board();
    board.pieces[1][Piece::Rook.index()] = bb(Square::E8 as u8);
    board.recompute_occupancy();
    assert!(!generate_legal_moves(&mut board).contains(&mv(Square::E1, Square::G1)));
}

#[test]
fn promotion_gives_four_moves() {
    let mut board = Board::empty();
    board.pieces[0][Piece::Pawn.index()] = bb(Square::B7 as u8);
    board.pieces[0][Piece::King.index()] = bb(Square::E1 as u8);
    board.pieces[1][Piece::King.index()] = bb(Square::H8 as u8);
    board.recompute_occupancy();
    let moves = generate_legal_moves(&mut board);
    let promos: Vec<Move> = moves.into_iter().filter(|m| m.from == Square::B7 as u8).collect();
    assert_eq!(promos.len(), 4);
    let mut kinds: Vec<u8> = promos.iter().map(|m| m.promotion.unwrap()).collect();
    kinds.sort();
    assert_eq!(kinds, vec![1, 2, 3, 4]);
    let queen = Move { from: Square::B7 as u8, to: Square::B8 as u8, promotion: Some(4) };
    let before = board.clone();
    let undo = board.make_move(queen);
    assert_ne!(board.pieces[0][Piece::Queen.index()] & bb(Square::B8 as u8), 0);
    assert_eq!(board.pieces[0][Piece::Pawn.index()], 0);
    board.unmake_move(queen, undo);
    assert!(same_board(&board, &before));
}

#[test]
fn uci_text_round_trip() {
    let m = Move { from: Square::E7 as u8, to: Square::E8 as u8, promotion: Some(4) };
    assert_eq!(m.to_uci(), "e7e8q");
    assert_eq!(Move::from_uci("e7e8q"), Some(m));
    assert_eq!(mv(Square::G1, Square::F3).to_uci(), "g1f3");
    assert_eq!(Move::from_uci("a1h8"), Some(mv(Square::A1, Square::H8)));
    assert_eq!(Move::from_uci("b7b8n").unwrap().promotion, Some(1));
    assert_eq!(Move::from_uci("b7b8x"), None);
    assert_eq!(Move::from_uci("e2e4x"), None);
    assert_eq!(Move::from_uci("e2e4qq"), None);
    assert_eq!(Move::from_uci("e2e4 "), None);
}

#[test]
fn malformed_uci_is_rejected() {
    assert_eq!(Move::from_uci("e2e"), None);
    assert_eq!(Move::from_uci(""), None);
    assert_eq!(Move::from_uci("i2e4"), None);
    assert_eq!(Move::from_uci("e9e4"), None);
    assert_eq!(Move::from_uci("E2E4"), None);
}

#[test]
fn evaluation_counts_material() {
    let mut board = Board::startpos();
    assert_eq!(evaluate(&board), 0);
    board.pieces[1][Piece::Queen.index()] = 0;
    board.pieces[1][Piece::Knight.index()] = bb(Square::B8 as u8);
    board.recompute_occupancy();
    assert_eq!(evaluate(&board), 900 + 320);
    board.side_to_move = Color::Black;
    assert_eq!(evaluate(&board), -1220);
}

#[test]
fn search_takes_hanging_queen() {
    let mut board = Board::empty();
    board.pieces[0][Piece::King.index()] = bb(Square::A1 as u8);
    board.pieces[0][Piece::Rook.index()] = bb(Square::D1 as u8);
    board.pieces[1][Piece::King.index()] = bb(Square::H8 as u8);
    board.pieces[1][Piece::Queen.index()] = bb(Square::D5 as u8);
    board.recompute_occupancy();
    let before = board.clone();
    let (score, best) = search(&mut board, 2);
    assert_eq!(best, Some(mv(Square::D1, Square::D5)));
    assert_eq!(score, 500);
    assert!(same_board(&board, &before));
}

#[test]
fn search_finds_mate_in_one() {
    let mut board = Board::empty();
    board.pieces[0][Piece::King.index()] = bb(Square::G6 as u8);
    board.pieces[0][Piece::Rook.index()] = bb(Square::A1 as u8);
    board.pieces[1][Piece::King.index()] = bb(Square::G8 as u8);
    board.recompute_occupancy();
    let (score, best) = search(&mut board, 2);
    assert_eq!(best, Some(mv(Square::A1, Square::A8)));
    assert_eq!(score, 1_000_000 - 1);
}

#[test]
fn search_without_moves_gives_none() {
    let mut board = Board::empty();
    board.pieces[0][Piece::King.index()] = bb(Square::A8 as u8);
    board.pieces[1][Piece::Queen.index()] = bb(Square::B6 as u8);
    board.pieces[1][Piece::King.index()] = bb(Square::C8 as u8);
    board.recompute_occupancy();
    let (_, best) = search(&mut board, 1);
    assert_eq!(best, None);
    assert!(!board.in_check(Color::White));
}

#[test]
fn piece_indices_match() {
    for i in 0..6usize {
        assert_eq!(index_to_piece(i).index(), i);
    }
    assert_eq!(Color::White.opposite(), Color::Black);
    assert_eq!(Color::Black.index(), 1);
}
