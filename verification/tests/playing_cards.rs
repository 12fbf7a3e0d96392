use num_rational::Ratio;
use stochasta::cards::Card;
use stochasta::playing_cards::{PlayingCard, PlayingCardDeck, PlayingCardSuit, PlayingCardValue};
use stochasta::{CardDrawTree, Probability};

#[test]
fn playing_card_display_check() {
    let king_hearts = PlayingCard::new(PlayingCardValue::King, PlayingCardSuit::Hearts);
    assert_eq!(king_hearts.to_text(), "K ♥");
}

#[test]
fn playing_card_suit_display_check() {
    assert_eq!(PlayingCardSuit::Clubs.to_text(), "♣");
    assert_eq!(PlayingCardSuit::Clubs.as_char(), '♣');
}

#[test]
fn playing_card_value_display_check() {
    assert_eq!(PlayingCardValue::Two.to_text(), "2");
    assert_eq!(PlayingCardValue::Ten.to_text(), "10");
    assert_eq!(PlayingCardValue::Ace.to_text(), "A");
}

#[test]
fn playing_card_deck_display_check() {
    let deck = PlayingCardDeck::new()
        .set_suits(vec![PlayingCardSuit::Clubs, PlayingCardSuit::Hearts])
        .set_values(vec![
            PlayingCardValue::Jack,
            PlayingCardValue::Queen,
            PlayingCardValue::King,
        ])
        .set_count(2);

    assert_eq!("[J♣ Q♣ K♣ J♥ Q♥ K♥] (2x)", deck.to_text());
}

#[test]
fn range_check() {
    let skat_deck = PlayingCardValue::Seven..=PlayingCardValue::Ace;
    assert!(!skat_deck.contains(&PlayingCardValue::Two));
    assert!(!skat_deck.contains(&PlayingCardValue::Three));
    assert!(!skat_deck.contains(&PlayingCardValue::Four));
    assert!(!skat_deck.contains(&PlayingCardValue::Five));
    assert!(!skat_deck.contains(&PlayingCardValue::Six));
    assert!(skat_deck.contains(&PlayingCardValue::Seven));
    assert!(skat_deck.contains(&PlayingCardValue::Eight));
    assert!(skat_deck.contains(&PlayingCardValue::Nine));
    assert!(skat_deck.contains(&PlayingCardValue::Ten));
    assert!(skat_deck.contains(&PlayingCardValue::Jack));
    assert!(skat_deck.contains(&PlayingCardValue::Queen));
    assert!(skat_deck.contains(&PlayingCardValue::King));
    assert!(skat_deck.contains(&PlayingCardValue::Ace));
}

#[test]
fn suit_colors() {
    assert!(!PlayingCardSuit::Clubs.is_red());
    assert!(PlayingCardSuit::Hearts.is_red());
    assert!(PlayingCardSuit::Clubs.is_black());
    assert!(!PlayingCardSuit::Hearts.is_black());
}

#[test]
fn value_predicates() {
    assert!(PlayingCardValue::King.is_picture());
    assert!(!PlayingCardValue::Two.is_picture());
    assert!(PlayingCardValue::Two.is_number());
    assert!(!PlayingCardValue::Ace.is_number());
    assert!(PlayingCardValue::Ace.is_ace());
    assert!(!PlayingCardValue::King.is_ace());
}

#[test]
fn playing_card_accessors() {
    let card = PlayingCard::new(PlayingCardValue::King, PlayingCardSuit::Hearts);
    assert_eq!(card.value(), PlayingCardValue::King);
    assert_eq!(card.suit(), PlayingCardSuit::Hearts);
}

#[test]
fn builder_full_deck() {
    let deck = PlayingCardDeck::new()
        .value_range(PlayingCardValue::Seven, PlayingCardValue::Ace)
        .all_suits()
        .set_count(2)
        .to_deck();
    assert_eq!(deck.size(), 64);

    let deck = PlayingCardDeck::new()
        .all_values()
        .all_suits()
        .set_count(2)
        .to_deck();
    assert_eq!(deck.size(), 13 * 4 * 2);
}

#[test]
fn builder_contains() {
    let deck = PlayingCardDeck::new()
        .set_values(vec![PlayingCardValue::Ten, PlayingCardValue::Ace])
        .set_suits(vec![PlayingCardSuit::Hearts])
        .to_deck();

    assert_eq!(deck.size(), 2);
    let ten = PlayingCard::new(PlayingCardValue::Ten, PlayingCardSuit::Hearts);
    let ace = PlayingCard::new(PlayingCardValue::Ace, PlayingCardSuit::Hearts);
    assert!(deck.contains(&Card::new(&ten.to_text())));
    assert!(deck.contains(&Card::new(&ace.to_text())));
}

#[test]
fn builder_is_empty() {
    assert!(PlayingCardDeck::new().is_empty());
    assert!(!PlayingCardDeck::new().all_values().all_suits().is_empty());
    assert!(PlayingCardDeck::new()
        .all_values()
        .all_suits()
        .set_count(0)
        .is_empty());
}

fn standard_deck() -> stochasta::CardDeck {
    PlayingCardDeck::new().all_values().all_suits().to_deck()
}

fn card_text(value: PlayingCardValue, suit: PlayingCardSuit) -> Card {
    Card::new(&PlayingCard::new(value, suit).to_text())
}

#[test]
fn poker_hand_specific_order() {
    let deck = standard_deck();
    let tree = CardDrawTree::shrinking(&deck, 2);
    let probability = tree.probability_of(&[
        card_text(PlayingCardValue::Ace, PlayingCardSuit::Diamonds),
        card_text(PlayingCardValue::Ace, PlayingCardSuit::Hearts),
    ]);
    assert_eq!(probability, Probability::new(1, 2652));
}

#[test]
fn poker_hand_just_aces() {
    let deck = standard_deck();
    let tree = CardDrawTree::shrinking(&deck, 2);
    let sum: Ratio<u64> = tree
        .paths()
        .iter()
        .filter(|seq| seq.cards().iter().all(|card| card.text().starts_with("A ")))
        .map(|seq| {
            let (n, d) = seq.probability().ratio();
            Ratio::new(n, d)
        })
        .sum();
    assert_eq!(sum, Ratio::new(6, 1326));
}
