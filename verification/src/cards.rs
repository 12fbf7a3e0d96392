//! Card-based stochastics: decks of cards and drawing from them.
//!
//! A deck holds multiples of equal cards; drawing one card from it is
//! described exactly by the per-card probabilities the deck induces.

pub mod card;
pub mod card_deck;
pub mod card_draw_sequence;
pub mod card_draw_tree;

pub use card::Card;
pub use card_deck::CardDeck;
pub use card_draw_sequence::CardDrawSequence;
pub use card_draw_tree::CardDrawTree;
