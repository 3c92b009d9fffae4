use chess_engine::bitboard::{bb, file_of, rank_of};

#[test]
fn square_mapping() {
    assert_eq!(bb(0), 1u64);
    assert_eq!(bb(63), 1u64 << 63);
    assert_eq!(file_of(0), 0);
    assert_eq!(rank_of(0), 0);
    assert_eq!(file_of(63), 7);
    assert_eq!(rank_of(63), 7);
}
