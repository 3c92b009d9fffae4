use vstd::prelude::*;
use crate::piece::{Color, Piece};

verus! {

/// What `make_move` changed beyond the moving piece: enough to take the move back.
#[derive(Clone, Copy, Debug)]
pub struct Undo {
    pub captured: Option<(Color, Piece)>,
    pub side_to_move: Color,
    pub castling_rights: u8,
    pub en_passant_square: Option<u8>,
}

} // verus!
