//! The two sides of the game.

use vstd::prelude::*;

verus! {

/// A side: the first player moves on even plies.
#[derive(Clone, Copy, Debug, PartialEq, Eq, Structural)]
pub enum Player {
    White,
    Black,
}

impl Player {
    /// The side's piece character in the record format.
    pub open spec fn char_spec(self) -> char {
        match self {
            Player::White => 'x',
            Player::Black => 'o',
        }
    }

    /// The opponent of this side.
    pub open spec fn other_spec(self) -> Player {
        match self {
            Player::White => Player::Black,
            Player::Black => Player::White,
        }
    }

    pub fn to_char(self) -> (c: char)
        ensures
            c == self.char_spec(),
    {
        match self {
            Player::White => 'x',
            Player::Black => 'o',
        }
    }

    pub fn from_char(c: char) -> (r: Option<Player>)
        ensures
            r == (if c == 'x' {
                Some(Player::White)
            } else if c == 'o' {
                Some(Player::Black)
            } else {
                None::<Player>
            }),
    {
        match c {
            'x' => Some(Player::White),
            'o' => Some(Player::Black),
            _ => None,
        }
    }
}

} // verus!
