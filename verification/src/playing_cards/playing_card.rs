//! A standard playing card.

use crate::playing_cards::playing_card_suit::{suit_char, PlayingCardSuit};
use crate::playing_cards::playing_card_value::{value_text, PlayingCardValue};
use vstd::prelude::*;

verus! {

/// A standard playing card like **10 ♥**, consisting of a
/// [`PlayingCardValue`] and a [`PlayingCardSuit`].
#[derive(Copy, Clone, PartialEq, Eq, PartialOrd, Ord, Hash, Debug, Structural)]
pub struct PlayingCard {
    value: PlayingCardValue,
    suit: PlayingCardSuit,
}

/// The text of a playing card: its value, a space, and its suit symbol.
pub open spec fn playing_card_text(value: PlayingCardValue, suit: PlayingCardSuit) -> Seq<char> {
    value_text(value) + seq![' '] + seq![suit_char(suit)]
}

impl PlayingCard {
    /// The value of the card, for specifications.
    pub closed spec fn spec_value(self) -> PlayingCardValue {
        self.value
    }

    /// The suit of the card, for specifications.
    pub closed spec fn spec_suit(self) -> PlayingCardSuit {
        self.suit
    }

    /// Creates a new playing card.
    pub fn new(value: PlayingCardValue, suit: PlayingCardSuit) -> (c: PlayingCard)
        ensures
            c.spec_value() == value,
            c.spec_suit() == suit,
    {
        PlayingCard { value, suit }
    }

    /// Returns the value of the card.
    pub fn value(&self) -> (v: PlayingCardValue)
        ensures
            v == self.spec_value(),
    {
        self.value
    }

    /// Returns the suit of the card.
    pub fn suit(&self) -> (s: PlayingCardSuit)
        ensures
            s == self.spec_suit(),
    {
        self.suit
    }

    /// Renders the card as text, e.g. `K ♥`.
    pub fn to_text(&self) -> (s: String)
        ensures
            s@ == playing_card_text(self.spec_value(), self.spec_suit()),
    {
        proof {
            reveal_strlit(" ");
        }
        let mut out = self.value.to_text();
        out.append(" ");
        let suit = self.suit.to_text();
        out.append(suit.as_str());
        proof {
            assert(out@ =~= playing_card_text(self.value, self.suit));
        }
        out
    }
}

} // verus!
