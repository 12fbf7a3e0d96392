//! The value of a standard playing card.

use vstd::prelude::*;

verus! {

/// The value of a playing card.
#[derive(Copy, Clone, PartialEq, Eq, PartialOrd, Ord, Hash, Debug, Default, Structural)]
pub enum PlayingCardValue {
    /// 2
    #[default]
    Two,
    /// 3
    Three,
    /// 4
    Four,
    /// 5
    Five,
    /// 6
    Six,
    /// 7
    Seven,
    /// 8
    Eight,
    /// 9
    Nine,
    /// 10
    Ten,
    /// J
    Jack,
    /// Q
    Queen,
    /// K
    King,
    /// A
    Ace,
}

/// The rank of a value in the standard order, from two up to the ace.
pub open spec fn value_rank(v: PlayingCardValue) -> int {
    match v {
        PlayingCardValue::Two => 0,
        PlayingCardValue::Three => 1,
        PlayingCardValue::Four => 2,
        PlayingCardValue::Five => 3,
        PlayingCardValue::Six => 4,
        PlayingCardValue::Seven => 5,
        PlayingCardValue::Eight => 6,
        PlayingCardValue::Nine => 7,
        PlayingCardValue::Ten => 8,
        PlayingCardValue::Jack => 9,
        PlayingCardValue::Queen => 10,
        PlayingCardValue::King => 11,
        PlayingCardValue::Ace => 12,
    }
}

/// The short text of a value: its number, or the initial of its name.
pub open spec fn value_text(v: PlayingCardValue) -> Seq<char> {
    match v {
        PlayingCardValue::Two => "2"@,
        PlayingCardValue::Three => "3"@,
        PlayingCardValue::Four => "4"@,
        PlayingCardValue::Five => "5"@,
        PlayingCardValue::Six => "6"@,
        PlayingCardValue::Seven => "7"@,
        PlayingCardValue::Eight => "8"@,
        PlayingCardValue::Nine => "9"@,
        PlayingCardValue::Ten => "10"@,
        PlayingCardValue::Jack => "J"@,
        PlayingCardValue::Queen => "Q"@,
        PlayingCardValue::King => "K"@,
        PlayingCardValue::Ace => "A"@,
    }
}

impl PlayingCardValue {
    /// Returns `true` if the value is J, Q or K.
    pub fn is_picture(&self) -> (r: bool)
        ensures
            r == (*self == PlayingCardValue::Jack || *self == PlayingCardValue::Queen || *self
                == PlayingCardValue::King),
    {
        matches!(
            self,
            PlayingCardValue::Jack | PlayingCardValue::Queen | PlayingCardValue::King
        )
    }

    /// Returns `true` if the value is numeric (2 to 10).
    pub fn is_number(&self) -> (r: bool)
        ensures
            r == !(*self == PlayingCardValue::Jack || *self == PlayingCardValue::Queen || *self
                == PlayingCardValue::King || *self == PlayingCardValue::Ace),
    {
        !self.is_picture() && !self.is_ace()
    }

    /// Returns `true` if the value is the ace.
    pub fn is_ace(&self) -> (r: bool)
        ensures
            r == (*self == PlayingCardValue::Ace),
    {
        matches!(self, PlayingCardValue::Ace)
    }

    /// The rank of the value in the standard order.
    pub fn rank(&self) -> (r: u8)
        ensures
            r as int == value_rank(*self),
    {
        match self {
            PlayingCardValue::Two => 0,
            PlayingCardValue::Three => 1,
            PlayingCardValue::Four => 2,
            PlayingCardValue::Five => 3,
            PlayingCardValue::Six => 4,
            PlayingCardValue::Seven => 5,
            PlayingCardValue::Eight => 6,
            PlayingCardValue::Nine => 7,
            PlayingCardValue::Ten => 8,
            PlayingCardValue::Jack => 9,
            PlayingCardValue::Queen => 10,
            PlayingCardValue::King => 11,
            PlayingCardValue::Ace => 12,
        }
    }

    /// Returns the short text of the value.
    pub fn as_str(&self) -> (s: &'static str)
        ensures
            s@ == value_text(*self),
    {
        match self {
            PlayingCardValue::Two => "2",
            PlayingCardValue::Three => "3",
            PlayingCardValue::Four => "4",
            PlayingCardValue::Five => "5",
            PlayingCardValue::Six => "6",
            PlayingCardValue::Seven => "7",
            PlayingCardValue::Eight => "8",
            PlayingCardValue::Nine => "9",
            PlayingCardValue::Ten => "10",
            PlayingCardValue::Jack => "J",
            PlayingCardValue::Queen => "Q",
            PlayingCardValue::King => "K",
            PlayingCardValue::Ace => "A",
        }
    }

    /// Renders the value as text.
    pub fn to_text(&self) -> (s: String)
        ensures
            s@ == value_text(*self),
    {
        self.as_str().to_owned()
    }
}

} // verus!
