//! A sequence of drawn cards together with its exact probability.

use crate::cards::card::Card;
use crate::probability::{frac_text, Probability};
use vstd::prelude::*;

verus! {

/// One fully realised path through a draw tree: the cards in draw order and
/// the exact probability of that exact ordered sequence.
///
/// See [`CardDrawTree::paths`](crate::cards::card_draw_tree::CardDrawTree::paths).
#[derive(PartialEq, Eq, Hash, Debug)]
pub struct CardDrawSequence {
    cards: Vec<Card>,
    probability: Probability,
}

impl View for CardDrawSequence {
    type V = (Seq<Seq<char>>, (int, int));

    closed spec fn view(&self) -> (Seq<Seq<char>>, (int, int)) {
        (self.cards@.map_values(|c: Card| c@), self.probability@)
    }
}

/// The labels of a card list, joined with dashes.
pub open spec fn labels_joined(s: Seq<Seq<char>>) -> Seq<char>
    decreases s.len(),
{
    if s.len() == 0 {
        Seq::empty()
    } else if s.len() == 1 {
        s[0]
    } else {
        labels_joined(s.drop_last()) + seq!['-'] + s.last()
    }
}

/// The textual form of a sequence: the dash-joined labels in brackets,
/// then its probability in parentheses.
pub open spec fn sequence_text(v: (Seq<Seq<char>>, (int, int))) -> Seq<char> {
    seq!['['] + labels_joined(v.0) + seq![']'] + seq![' '] + seq!['('] + frac_text(v.1) + seq![')']
}

impl Clone for CardDrawSequence {
    /// The clone of a sequence has the same cards and probability.
    fn clone(&self) -> (c: CardDrawSequence)
        ensures
            c@ == self@,
    {
        let mut cards: Vec<Card> = Vec::new();
        let mut i: usize = 0;
        while i < self.cards.len()
            invariant
                0 <= i <= self.cards@.len(),
                cards@.len() == i,
                forall|j: int| 0 <= j < i ==> cards@[j] == self.cards@[j],
            decreases self.cards@.len() - i,
        {
            let card = self.cards[i].clone();
            cards.push(card);
            i = i + 1;
        }
        let c = CardDrawSequence { cards, probability: self.probability };
        proof {
            assert(c@.0 =~= self@.0);
        }
        c
    }
}

impl Default for CardDrawSequence {
    /// The default sequence is empty and has probability 0.
    fn default() -> (s: CardDrawSequence)
        ensures
            s@.0 =~= Seq::<Seq<char>>::empty(),
            s@.1 == (0int, 1int),
    {
        CardDrawSequence { cards: Vec::new(), probability: Probability::zero() }
    }
}

impl CardDrawSequence {
    /// The probability component is a valid probability.
    pub open spec fn wf(self) -> bool {
        self.prob().wf()
    }

    /// The stored probability value.
    pub closed spec fn prob(self) -> Probability {
        self.probability
    }

    /// Creates a new sequence from the given cards and probability.
    pub fn new(cards: Vec<Card>, probability: Probability) -> (s: CardDrawSequence)
        ensures
            s@.0 == cards@.map_values(|c: Card| c@),
            s@.1 == probability@,
            s.prob() == probability,
    {
        CardDrawSequence { cards, probability }
    }

    /// Returns the cards in their draw order.
    pub fn cards(&self) -> (c: &Vec<Card>)
        ensures
            c@.map_values(|x: Card| x@) == self@.0,
    {
        &self.cards
    }

    /// Returns the probability of this sequence to appear.
    pub fn probability(&self) -> (p: &Probability)
        ensures
            p@ == self@.1,
            *p == self.prob(),
    {
        &self.probability
    }

    /// Renders the sequence as text: `[a-b-c] (1/6)`.
    #[verifier::loop_isolation(false)]
    pub fn to_text(&self) -> (s: String)
        ensures
            s@ == sequence_text(self@),
    {
        proof {
            reveal_strlit("[");
            reveal_strlit("]");
            reveal_strlit(" (");
            reveal_strlit(")");
            reveal_strlit("-");
            assert("["@ =~= seq!['[']);
            assert("]"@ =~= seq![']']);
            assert(")"@ =~= seq![')']);
            assert("-"@ =~= seq!['-']);
            assert(" ("@ =~= seq![' '] + seq!['(']);
        }
        let ghost labels = self@.0;
        let mut out = String::new();
        out.append("[");
        let mut i: usize = 0;
        while i < self.cards.len()
            invariant
                0 <= i <= self.cards@.len(),
                labels == self@.0,
                labels.len() == self.cards@.len(),
                forall|j: int| 0 <= j < labels.len() ==> labels[j] == self.cards@[j]@,
                out@ == seq!['['] + labels_joined(labels.take(i as int)),
            decreases self.cards@.len() - i,
        {
            if i > 0 {
                out.append("-");
            }
            out.append(self.cards[i].text());
            proof {
                assert(labels.take(i as int + 1).drop_last() =~= labels.take(i as int));
                assert(labels.take(i as int + 1).last() == labels[i as int]);
                if i == 0 {
                    assert(labels.take(1int)[0] == labels[0]);
                    assert(out@ =~= seq!['['] + labels_joined(labels.take(1int)));
                } else {
                    assert(out@ =~= seq!['['] + labels_joined(labels.take(i as int + 1)));
                }
            }
            i = i + 1;
        }
        proof {
            assert(labels.take(labels.len() as int) =~= labels);
        }
        out.append("]");
        out.append(" (");
        let prob = self.probability.to_text();
        out.append(prob.as_str());
        out.append(")");
        proof {
            assert(" ("@ =~= seq![' '] + seq!['(']);
            assert(out@ =~= sequence_text(self@));
        }
        out
    }
}

} // verus!
