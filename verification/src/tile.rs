//! The tile model: suits, tiles, and the orderings the sorters and
//! detectors work with.

use vstd::prelude::*;

verus! {

/// The value carried by joker tiles. Ordinary tiles are bounded by the
/// generator's `max_tile`, which stays strictly below this sentinel, so a
/// joker can never collide with an ordinary tile.
pub const JOKER_VALUE: u8 = 255;

/// A tile's suit: four ordinary suits in a fixed sort order, plus the
/// joker suit. The declared order is the canonical suit-sort order.
#[derive(Clone, Copy, Debug, PartialEq, Eq, Structural)]
pub enum Suit {
    Blue,
    Red,
    Orange,
    Black,
    Joker,
}

/// A single game tile: a small positive value and a suit. Tiles are
/// immutable value objects; two tiles are equal iff value and suit match.
#[derive(Clone, Copy, Debug, PartialEq, Eq, Structural)]
pub struct Tile {
    pub value: u8,
    pub suit: Suit,
}

/// Position of a suit in the canonical suit-sort order.
pub open spec fn suit_rank(s: Suit) -> int {
    match s {
        Suit::Blue => 0,
        Suit::Red => 1,
        Suit::Orange => 2,
        Suit::Black => 3,
        Suit::Joker => 4,
    }
}

/// Jokers take part in neither sets' suit counting semantics nor run
/// detection; every other suit is an ordinary playing suit.
pub open spec fn is_ordinary(s: Suit) -> bool {
    s != Suit::Joker
}

/// Distinct suits have distinct ranks: the rank determines the suit.
pub proof fn lemma_suit_rank_injective(a: Suit, b: Suit)
    ensures
        suit_rank(a) == suit_rank(b) ==> a == b,
{
}

impl Suit {
    /// Executable counterpart of `suit_rank`.
    pub fn rank(self) -> (r: u8)
        ensures
            r as int == suit_rank(self),
    {
        match self {
            Suit::Blue => 0,
            Suit::Red => 1,
            Suit::Orange => 2,
            Suit::Black => 3,
            Suit::Joker => 4,
        }
    }

    /// The one-letter display code of the suit, used by presentation layers.
    pub fn code(self) -> (c: char)
        ensures
            c == (match self {
                Suit::Blue => 'U',
                Suit::Red => 'R',
                Suit::Orange => 'O',
                Suit::Black => 'A',
                Suit::Joker => 'J',
            }),
    {
        match self {
            Suit::Blue => 'U',
            Suit::Red => 'R',
            Suit::Orange => 'O',
            Suit::Black => 'A',
            Suit::Joker => 'J',
        }
    }
}

impl Tile {
    /// Builds the tile with the given value and suit.
    pub fn new(value: u8, suit: Suit) -> (t: Tile)
        ensures
            t.value == value,
            t.suit == suit,
    {
        Tile { value, suit }
    }
}

impl Default for Tile {
    /// The lowest black tile, a convenient placeholder value.
    fn default() -> (t: Tile)
        ensures
            t.value == 1,
            t.suit == Suit::Black,
    {
        Tile { value: 1, suit: Suit::Black }
    }
}

} // verus!
