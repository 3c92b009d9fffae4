use chess_engine::board::Board;
use chess_engine::movegen::generate_legal_moves;
use chess_engine::perft::perft;
use std::collections::HashSet;

#[test]
fn no_duplicate_moves() {
    let mut board = Board::startpos();
    let moves = generate_legal_moves(&mut board);

    let mut seen = HashSet::new();
    for mv in &moves {
        let key = (mv.from, mv.to);
        assert!(!seen.contains(&key), "Duplicate move: {:?}", mv);
        seen.insert(key);
    }

    assert_eq!(moves.len(), 20, "Should have 20 moves from starting position");
}

#[test]
fn perft_startpos() {
    let mut board = Board::startpos();

    // Known perft counts
    assert_eq!(perft(&mut board, 1), 20);
    assert_eq!(perft(&mut board, 2), 400);
    assert_eq!(perft(&mut board, 3), 8_902);
    assert_eq!(perft(&mut board, 4), 197_281);
    assert_eq!(perft(&mut board, 5), 4_865_609);
    assert_eq!(perft(&mut board, 6), 119_060_324);
}
