//! The tri-state occupant of a board cell: empty, black or white.

use vstd::prelude::*;

verus! {

/// Occupant of one cell of the board.
#[derive(Clone, Copy, PartialEq, Eq, Structural, Debug)]
pub enum Stone {
    Empty,
    Black,
    White,
}

pub const BLACK_STONE: Stone = Stone::Black;
pub const WHITE_STONE: Stone = Stone::White;
pub const EMPTY: Stone = Stone::Empty;

pub const BLACK_NAME: &'static str = "Black";
pub const WHITE_NAME: &'static str = "White";
pub const PASS_NAME: &'static str = "PASS";

impl Stone {
    /// Whether the stone is an actual stone colour rather than an empty cell.
    pub open spec fn is_color(self) -> bool {
        self == Stone::Black || self == Stone::White
    }

    /// The opposing colour; empty stays empty.
    pub open spec fn spec_opposite(self) -> Stone {
        match self {
            Stone::Black => Stone::White,
            Stone::White => Stone::Black,
            Stone::Empty => Stone::Empty,
        }
    }

    /// Returns the opposing colour (black for white, white for black).
    pub fn opposite(self) -> (r: Stone)
        ensures
            r == self.spec_opposite(),
    {
        match self {
            Stone::Black => Stone::White,
            Stone::White => Stone::Black,
            Stone::Empty => Stone::Empty,
        }
    }
}

/// Name of the player owning a stone colour; an empty stone stands for a
/// pass.
pub open spec fn spec_stone_name(stone: Stone) -> Seq<char> {
    match stone {
        Stone::Black => BLACK_NAME@,
        Stone::White => WHITE_NAME@,
        Stone::Empty => PASS_NAME@,
    }
}

/// Name of the player owning a stone colour; an empty stone stands for a pass.
pub fn get_stone_name_from_stone(stone: Stone) -> (r: &'static str)
    ensures
        r@ == spec_stone_name(stone),
        stone == Stone::Black ==> r@ == BLACK_NAME@,
        stone == Stone::White ==> r@ == WHITE_NAME@,
        stone == Stone::Empty ==> r@ == PASS_NAME@,
{
    match stone {
        Stone::Black => BLACK_NAME,
        Stone::White => WHITE_NAME,
        Stone::Empty => PASS_NAME,
    }
}

} // verus!
