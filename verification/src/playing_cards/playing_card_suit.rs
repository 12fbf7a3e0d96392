//! The suit of a standard playing card.

use vstd::prelude::*;

verus! {

/// The suit of a playing card.
#[derive(Copy, Clone, PartialEq, Eq, PartialOrd, Ord, Hash, Debug, Default, Structural)]
pub enum PlayingCardSuit {
    /// ♦ (diamonds)
    #[default]
    Diamonds,
    /// ♣ (clubs)
    Clubs,
    /// ♥ (hearts)
    Hearts,
    /// ♠ (spades)
    Spades,
}

/// The rank of a suit in the standard order of the deck builder.
pub open spec fn suit_rank(s: PlayingCardSuit) -> int {
    match s {
        PlayingCardSuit::Diamonds => 0,
        PlayingCardSuit::Clubs => 1,
        PlayingCardSuit::Hearts => 2,
        PlayingCardSuit::Spades => 3,
    }
}

/// The symbol of a suit.
pub open spec fn suit_char(s: PlayingCardSuit) -> char {
    match s {
        PlayingCardSuit::Diamonds => '♦',
        PlayingCardSuit::Clubs => '♣',
        PlayingCardSuit::Hearts => '♥',
        PlayingCardSuit::Spades => '♠',
    }
}

impl PlayingCardSuit {
    /// Returns `true` if the suit is red.
    pub fn is_red(&self) -> (r: bool)
        ensures
            r == (*self == PlayingCardSuit::Hearts || *self == PlayingCardSuit::Diamonds),
    {
        matches!(self, PlayingCardSuit::Hearts | PlayingCardSuit::Diamonds)
    }

    /// Returns `true` if the suit is black.
    pub fn is_black(&self) -> (r: bool)
        ensures
            r == !(*self == PlayingCardSuit::Hearts || *self == PlayingCardSuit::Diamonds),
    {
        !self.is_red()
    }

    /// Returns the symbol of the suit.
    pub fn as_char(&self) -> (c: char)
        ensures
            c == suit_char(*self),
    {
        match self {
            PlayingCardSuit::Diamonds => '♦',
            PlayingCardSuit::Clubs => '♣',
            PlayingCardSuit::Hearts => '♥',
            PlayingCardSuit::Spades => '♠',
        }
    }

    /// The rank of the suit in the standard order.
    pub fn rank(&self) -> (r: u8)
        ensures
            r as int == suit_rank(*self),
    {
        match self {
            PlayingCardSuit::Diamonds => 0,
            PlayingCardSuit::Clubs => 1,
            PlayingCardSuit::Hearts => 2,
            PlayingCardSuit::Spades => 3,
        }
    }

    /// Renders the suit as text: its symbol.
    pub fn to_text(&self) -> (s: String)
        ensures
            s@ == seq![suit_char(*self)],
    {
        proof {
            reveal_strlit("♦");
            reveal_strlit("♣");
            reveal_strlit("♥");
            reveal_strlit("♠");
        }
        let r = match self {
            PlayingCardSuit::Diamonds => "♦",
            PlayingCardSuit::Clubs => "♣",
            PlayingCardSuit::Hearts => "♥",
            PlayingCardSuit::Spades => "♠",
        };
        assert(r@ =~= seq![suit_char(*self)]);
        r.to_owned()
    }
}

} // verus!
