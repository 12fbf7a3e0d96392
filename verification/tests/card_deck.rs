use stochasta::cards::Card;
use stochasta::{CardDeck, Probability};

fn deck_of(labels: &[&str]) -> CardDeck {
    let mut cards = Vec::new();
    for label in labels {
        cards.push(Card::new(label));
    }
    CardDeck::from_cards(cards)
}

#[test]
fn coin_toss_works() {
    let coin = deck_of(&["Heads", "Tails"]);
    assert_eq!(coin.size(), 2);
    assert_eq!(coin.probability(&Card::new("Heads")), Probability::new(1, 2));
    assert_eq!(coin.probability(&Card::new("Tails")), Probability::new(1, 2));
    assert_eq!(coin.probability(&Card::new("Edge")), Probability::zero());
}

#[test]
fn uneven_dice_works() {
    let dice = deck_of(&["1", "2", "3", "4", "5", "1"]);
    assert_eq!(dice.size(), 6);
    assert_eq!(dice.probability(&Card::new("1")), Probability::new(1, 3));
    assert_eq!(dice.probability(&Card::new("2")), Probability::new(1, 6));
    assert_eq!(dice.probability(&Card::new("5")), Probability::new(1, 6));
    assert_eq!(dice.probability(&Card::new("6")), Probability::zero());
}

#[test]
fn probabilities_no_zero_returns() {
    let mut deck = deck_of(&["1", "2", "3"]);
    deck.remove_times(Card::new("3"), 1);
    assert!(deck
        .probabilities()
        .iter()
        .all(|(_, p)| *p > Probability::zero()));
}

#[test]
fn add_and_count() {
    let card = Card::new("demo");
    let mut deck = CardDeck::new();
    assert_eq!(deck.count(&card), 0);
    assert!(!deck.contains(&card));
    deck.add(Card::new("demo"));
    assert_eq!(deck.count(&card), 1);
    assert!(deck.contains(&card));
    deck.add_times(Card::new("demo"), 5);
    assert_eq!(deck.count(&card), 6);
}

#[test]
fn remove_all_and_times() {
    let mut deck = deck_of(&["1", "3", "3"]);
    assert_eq!(deck.count(&Card::new("3")), 2);
    deck.remove_all(&Card::new("3"));
    assert_eq!(deck.count(&Card::new("3")), 0);

    let mut deck = deck_of(&["3", "3", "3"]);
    deck.remove_times(Card::new("3"), 2);
    assert_eq!(deck.count(&Card::new("3")), 1);
    // Removing more than present saturates at zero.
    deck.remove_times(Card::new("3"), 10);
    assert_eq!(deck.count(&Card::new("3")), 0);
}

#[test]
fn set_card_overwrites() {
    let mut deck = CardDeck::new();
    assert_eq!(deck.count(&Card::new("alpha")), 0);
    deck.set_card(Card::new("alpha"), 10);
    assert_eq!(deck.count(&Card::new("alpha")), 10);
    deck.set_card(Card::new("alpha"), 3);
    assert_eq!(deck.count(&Card::new("alpha")), 3);
}

#[test]
fn draw_leaves_original_untouched() {
    let original = deck_of(&["1", "2", "3"]);
    assert!(original.contains(&Card::new("3")));
    let new_deck = original.draw(Card::new("3"));
    assert!(original.contains(&Card::new("3")));
    assert!(!new_deck.contains(&Card::new("3")));
    assert_eq!(new_deck.size(), 2);
}

#[test]
fn empty_deck_probability_is_zero() {
    let deck = CardDeck::new();
    assert_eq!(deck.probability(&Card::new("x")), Probability::zero());
    assert!(deck.is_empty());
    assert_eq!(deck.size(), 0);
}

#[test]
fn probabilities_sum_to_one() {
    let deck = deck_of(&["a", "a", "b", "c"]);
    let probs = deck.probabilities();
    assert_eq!(probs.len(), 3);
    let mut num_sum = 0u64;
    for (_, p) in probs.iter() {
        // All denominators divide the deck size.
        let (n, d) = p.ratio();
        assert_eq!(4 % d, 0);
        num_sum += n * (4 / d);
    }
    assert_eq!(num_sum, 4);
}

#[test]
fn card_accessors() {
    let card = Card::new("Head");
    assert_eq!(card.text(), "Head");
    assert_eq!(card.to_text(), "(Head)");
}
