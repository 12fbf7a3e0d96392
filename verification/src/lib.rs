//! Exact stochastic analysis over finite card decks.
//!
//! A [`CardDeck`] is a multiset of cards; drawing from it is described by
//! exact rational [`Probability`] values, never floating point. A
//! [`CardDrawTree`] expands a bounded number of draws (with or without
//! replacement) into a probability tree that can be queried for the
//! probability of a particular sequence, enumerated into
//! [`CardDrawSequence`] values, or rendered as Graphviz text.

pub mod binomial_coefficient;
pub mod cards;
pub mod decimal;
pub mod playing_cards;
pub mod probability;
pub mod rational;
pub mod util;

pub use cards::card_deck::CardDeck;
pub use cards::card_draw_sequence::CardDrawSequence;
pub use cards::card_draw_tree::CardDrawTree;
pub use probability::Probability;
pub use probability::ProbabilityRatioError;
