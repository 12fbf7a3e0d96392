use num_rational::Ratio;
use stochasta::cards::Card;
use stochasta::{CardDeck, CardDrawSequence, CardDrawTree, Probability};

fn deck_of(labels: &[&str]) -> CardDeck {
    let mut cards = Vec::new();
    for label in labels {
        cards.push(Card::new(label));
    }
    CardDeck::from_cards(cards)
}

fn cards_of(labels: &[&str]) -> Vec<Card> {
    let mut cards = Vec::new();
    for label in labels {
        cards.push(Card::new(label));
    }
    cards
}

#[test]
fn probability_of_empty() {
    let tree: CardDrawTree = CardDrawTree::default();
    assert_eq!(tree.probability_of(&[]), Probability::one());
}

#[test]
fn probability_of_coin() {
    let coin = deck_of(&["heads", "tails"]);
    let tree = CardDrawTree::create_from(&coin);

    assert_eq!(
        tree.probability_of(&cards_of(&["heads"])),
        Probability::new(1, 2)
    );
    assert_eq!(
        tree.probability_of(&cards_of(&["tails"])),
        Probability::new(1, 2)
    );
    assert_eq!(tree.probability_of(&cards_of(&["side"])), Probability::zero());
    assert_eq!(
        tree.probability_of(&cards_of(&["heads", "tails"])),
        Probability::zero()
    );
}

#[test]
fn round_trip() {
    let coin = deck_of(&["H", "T"]);
    let tree = CardDrawTree::without_shrinking(&coin, 2);

    assert_eq!(tree.probability_of(&[]), Probability::one());
    assert_eq!(tree.probability_of(&cards_of(&["H"])), Probability::new(1, 2));
    assert_eq!(
        tree.probability_of(&cards_of(&["H", "H"])),
        Probability::new(1, 4)
    );
    // 3x heads is impossible when only throwing 2x.
    assert_eq!(
        tree.probability_of(&cards_of(&["H", "H", "H"])),
        Probability::zero()
    );
}

#[test]
fn to_graphviz_empty() {
    let deck = CardDeck::new();
    let tree = CardDrawTree::without_shrinking(&deck, 1);
    let output = r#"digraph {
_root[label="", shape="circle"];
}"#;
    assert_eq!(tree.to_graphviz(), output);
}

#[test]
fn to_graphviz_number() {
    let odd_coin = deck_of(&["7", "42"]);
    let tree = CardDrawTree::without_shrinking(&odd_coin, 1);
    let output = r#"digraph {
_root[label="", shape="circle"];
_root->_7_2[label="1/2"];
_7_2[label="7 (1/2)"];
_root->_42_3[label="1/2"];
_42_3[label="42 (1/2)"];
}"#;
    assert_eq!(output, tree.to_graphviz());
}

#[test]
fn to_graphviz_weighted_coin() {
    let odd_coin = deck_of(&["heads", "heads", "tails"]);
    let tree = CardDrawTree::without_shrinking(&odd_coin, 2);
    let output = r#"digraph {
_root[label="", shape="circle"];
_root->_heads_2[label="2/3"];
_heads_2[label="heads (2/3)"];
_heads_2->_heads_3[label="2/3"];
_heads_3[label="heads (4/9)"];
_heads_2->_tails_4[label="1/3"];
_tails_4[label="tails (2/9)"];
_root->_tails_5[label="1/3"];
_tails_5[label="tails (1/3)"];
_tails_5->_heads_6[label="2/3"];
_heads_6[label="heads (2/9)"];
_tails_5->_tails_7[label="1/3"];
_tails_7[label="tails (1/9)"];
}"#;
    assert_eq!(tree.to_graphviz(), output);
}

#[test]
fn to_graphviz_deterministic() {
    let deck_a = deck_of(&["a", "b", "b", "c"]);
    let deck_b = deck_of(&["a", "b", "b", "c"]);
    let tree_a = CardDrawTree::shrinking(&deck_a, 3);
    let tree_b = CardDrawTree::shrinking(&deck_b, 3);
    assert_eq!(tree_a.to_graphviz(), tree_b.to_graphviz());
    assert_eq!(tree_a.to_text(), tree_b.to_text());
}

#[test]
fn shrinking_empty() {
    let deck = CardDeck::new();
    let tree = CardDrawTree::shrinking(&deck, 1);
    assert!(tree.is_empty());
}

#[test]
fn shrinking_multiple_draws() {
    let deck = deck_of(&["1", "2", "3"]);
    let tree = CardDrawTree::shrinking(&deck, 3);
    assert_eq!(
        tree.probability_of(&cards_of(&["1", "2", "1"])),
        Probability::zero()
    );
    assert_eq!(
        tree.probability_of(&cards_of(&["1", "2", "2"])),
        Probability::zero()
    );
    assert_eq!(
        tree.probability_of(&cards_of(&["1", "2", "3"])),
        Probability::new(1, 6)
    );
}

#[test]
fn without_shrinking_multiple_draws() {
    let deck = deck_of(&["1", "2", "3"]);
    let tree = CardDrawTree::without_shrinking(&deck, 3);
    assert_eq!(
        tree.probability_of(&cards_of(&["1", "2", "1"])),
        Probability::new(1, 27)
    );
    assert_eq!(
        tree.probability_of(&cards_of(&["1", "2", "2"])),
        Probability::new(1, 27)
    );
    assert_eq!(
        tree.probability_of(&cards_of(&["1", "2", "3"])),
        Probability::new(1, 27)
    );
}

#[test]
fn shrinking_sum_resolves_to_one() {
    let deck = deck_of(&["1", "2", "3"]);
    let tree = CardDrawTree::shrinking(&deck, 3);

    assert_eq!(
        tree.paths()
            .iter()
            .map(|x| {
                let (n, d) = x.probability().ratio();
                Ratio::new(n, d)
            })
            .sum::<Ratio<u64>>(),
        Ratio::new(1, 1)
    );
}

#[test]
fn without_shrinking_sum_resolves_to_one() {
    let deck = deck_of(&["1", "2", "3"]);
    let tree = CardDrawTree::without_shrinking(&deck, 3);

    assert_eq!(
        tree.paths()
            .iter()
            .map(|x| {
                let (n, d) = x.probability().ratio();
                Ratio::new(n, d)
            })
            .sum::<Ratio<u64>>(),
        Ratio::new(1, 1)
    );
}

#[test]
fn paths_of_coin() {
    let coin = deck_of(&["H", "T"]);
    let tree = CardDrawTree::without_shrinking(&coin, 2);

    let result = tree.paths();
    let one_quarter = Probability::new(1, 4);

    assert_eq!(result.len(), 4);
    assert!(result.contains(&CardDrawSequence::new(cards_of(&["H", "H"]), one_quarter)));
    assert!(result.contains(&CardDrawSequence::new(cards_of(&["H", "T"]), one_quarter)));
    assert!(result.contains(&CardDrawSequence::new(cards_of(&["T", "H"]), one_quarter)));
    assert!(result.contains(&CardDrawSequence::new(cards_of(&["T", "T"]), one_quarter)));
}

#[test]
fn tree_to_string() {
    let deck = deck_of(&["1", "2", "3"]);
    let tree = CardDrawTree::shrinking(&deck, 3);
    assert_eq!(
        r#"* 1 (1/3)
	* 2 (1/6)
		* 3 (1/6)
	* 3 (1/6)
		* 2 (1/6)
* 2 (1/3)
	* 1 (1/6)
		* 3 (1/6)
	* 3 (1/6)
		* 1 (1/6)
* 3 (1/3)
	* 1 (1/6)
		* 2 (1/6)
	* 2 (1/6)
		* 1 (1/6)"#,
        tree.to_text()
    );
}

#[test]
fn sequence_accessors() {
    let sequence = CardDrawSequence::new(cards_of(&["1", "2", "3"]), Probability::one());
    assert_eq!(sequence.cards(), &cards_of(&["1", "2", "3"]));
    assert_eq!(sequence.probability(), &Probability::one());
    assert_eq!(sequence.to_text(), "[1-2-3] (1)");
}

#[test]
fn probability_never_increases_with_longer_sequences() {
    let deck = deck_of(&["a", "a", "b", "c"]);
    let tree = CardDrawTree::without_shrinking(&deck, 3);

    let empty = tree.probability_of(&[]);
    let one = tree.probability_of(&cards_of(&["a"]));
    let two = tree.probability_of(&cards_of(&["a", "b"]));
    let three = tree.probability_of(&cards_of(&["a", "b", "c"]));
    let four = tree.probability_of(&cards_of(&["a", "b", "c", "c"]));

    assert!(one <= empty);
    assert!(two <= one);
    assert!(three <= two);
    assert!(four <= three);
    assert_eq!(four, Probability::zero());
}
