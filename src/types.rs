use vstd::prelude::*;

verus! {

pub const W_PAWN: u32 = 0;
pub const W_KNIGHT: u32 = 1;
pub const W_BISHOP: u32 = 2;
pub const W_ROOK: u32 = 3;
pub const W_QUEEN: u32 = 4;
pub const W_KING: u32 = 5;
pub const B_PAWN: u32 = 6;
pub const B_KNIGHT: u32 = 7;
pub const B_BISHOP: u32 = 8;
pub const B_ROOK: u32 = 9;
pub const B_QUEEN: u32 = 10;
pub const B_KING: u32 = 11;

/// Side of the board.
#[derive(PartialEq, Eq, Structural, Copy, Clone, Debug)]
pub enum Color {
    White,
    Black,
}

impl Color {
    pub open spec fn opposite_spec(self) -> Color {
        match self {
            Color::White => Color::Black,
            Color::Black => Color::White,
        }
    }

    /// First piece index (inclusive) that belongs to this side.
    pub open spec fn first_piece(self) -> u32 {
        if self == Color::White { 0 } else { 6 }
    }

    /// The other side.
    pub fn opposite(self) -> (r: Self)
        ensures
            r == self.opposite_spec(),
            r != self,
    {
        match self {
            Color::White => Color::Black,
            Color::Black => Color::White,
        }
    }

    pub fn is_white(self) -> (r: bool)
        ensures
            r == (self == Color::White),
    {
        self == Color::White
    }
}

/// Piece identifier of `p` (0..12) belongs to `side`.
pub open spec fn piece_of(p: u32, side: Color) -> bool {
    side.first_piece() <= p < side.first_piece() + 6
}

} // verus!
