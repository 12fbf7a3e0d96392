//! Standard playing cards: values, suits, and a deck builder.

pub mod playing_card;
pub mod playing_card_deck;
pub mod playing_card_suit;
pub mod playing_card_value;

pub use playing_card::PlayingCard;
pub use playing_card_deck::PlayingCardDeck;
pub use playing_card_suit::PlayingCardSuit;
pub use playing_card_value::PlayingCardValue;
