//! A probability tree for a bounded number of draws from a deck.

use crate::cards::card::{card_lt, Card};
use crate::cards::card_draw_sequence::CardDrawSequence;
use crate::cards::card_deck::{
    deck_count_of, deck_index_of, deck_positive, deck_total, CardDeck,
};
use crate::probability::Probability;
use crate::rational::{
    frac_add, frac_eq, frac_mul, frac_reduce, frac_sum, frac_wf, lemma_frac_mul_wf,
    lemma_frac_reduce, lemma_pow_base_le,
};
use vstd::arithmetic::power::pow;
use vstd::prelude::*;

verus! {

/// A probability tree over card draws.
///
/// Each node stands for "this card was drawn at this step". A node stores
/// its *local* probability (the conditional probability of taking this
/// branch, given that its parent was reached) and its *absolute* probability
/// (the probability of reaching it from the root: the running product of the
/// local probabilities on the way down). Children are keyed uniquely by card
/// and kept in ascending card order, so every traversal is deterministic.
#[derive(PartialEq, Eq, Debug)]
pub struct CardDrawTree {
    probability: Probability,
    probability_in_tree: Probability,
    nodes: Vec<(Card, CardDrawTree)>,
}

impl CardDrawTree {
    /// The local probability of this node, as a fraction.
    pub closed spec fn local_prob(self) -> (int, int) {
        self.probability@
    }

    /// The absolute probability of reaching this node from the root.
    pub closed spec fn tree_prob(self) -> (int, int) {
        self.probability_in_tree@
    }

    /// The children of this node: card labels with their subtrees, in
    /// ascending card order.
    pub closed spec fn children(self) -> Seq<(Seq<char>, CardDrawTree)> {
        self.nodes@.map_values(|e: (Card, CardDrawTree)| (e.0@, e.1))
    }

    /// The local probabilities of the direct children.
    pub open spec fn child_locals(self) -> Seq<(int, int)> {
        self.children().map_values(|e: (Seq<char>, CardDrawTree)| e.1.local_prob())
    }

    /// An upper bound on the product of the local-probability denominators
    /// along any downward path from this node.
    pub closed spec fn path_den(self) -> int
        decreases self, 1int, 0int,
    {
        if self.nodes@.len() == 0 {
            1
        } else {
            self.path_den_upto(self.nodes@.len() as int)
        }
    }

    /// The same bound restricted to the first `k` children.
    pub closed spec fn path_den_upto(self, k: int) -> int
        decreases self, 0int, k,
    {
        if k <= 0 || k > self.nodes@.len() {
            1
        } else {
            let branch = self.nodes@[k - 1].1.probability@.1 * self.nodes@[k - 1].1.path_den();
            let rest = self.path_den_upto(k - 1);
            if branch > rest {
                branch
            } else {
                rest
            }
        }
    }

    /// The invariant of a draw tree.
    ///
    /// Both stored probabilities are valid; the children are strictly
    /// sorted by card; each child's absolute probability is the product of
    /// this node's absolute probability and the child's local probability;
    /// the local probabilities of the children of a branching node sum to
    /// exactly one; and the denominators along every path are small enough
    /// for exact arithmetic.
    pub closed spec fn wf(self) -> bool
        decreases self,
    {
        &&& self.probability.wf()
        &&& self.probability_in_tree.wf()
        &&& forall|i: int, j: int|
            0 <= i < j < self.nodes@.len() ==> card_lt(
                (#[trigger] self.nodes@[i]).0@,
                (#[trigger] self.nodes@[j]).0@,
            )
        &&& forall|i: int| 0 <= i < self.nodes@.len() ==> (#[trigger] self.nodes@[i]).1.wf()
        &&& forall|i: int|
            0 <= i < self.nodes@.len() ==> frac_eq(
                (#[trigger] self.nodes@[i]).1.probability_in_tree@,
                frac_mul(self.probability_in_tree@, self.nodes@[i].1.probability@),
            )
        &&& self.nodes@.len() > 0 ==> frac_eq(frac_sum(self.child_locals()), (1int, 1int))
        &&& self.path_den() <= u64::MAX
    }

    /// The tree built by `without_shrinking` from the given deck with the
    /// given number of draws, with local probability `local` under a parent
    /// reached with probability `parent`: one child per distinct positive
    /// card of the unchanged deck on every level.
    pub closed spec fn built_without_shrinking(
        self,
        deck: Seq<(Seq<char>, int)>,
        draws: int,
        local: (int, int),
        parent: (int, int),
    ) -> bool
        decreases draws,
    {
        &&& self.local_prob() == local
        &&& self.tree_prob() == frac_reduce(frac_mul(parent, local))
        &&& if draws > 0 {
            let pos = deck_positive(deck);
            &&& self.children().len() == pos.len()
            &&& forall|i: int|
                0 <= i < pos.len() ==> {
                    &&& (#[trigger] self.children()[i]).0 == pos[i].0
                    &&& self.children()[i].1.built_without_shrinking(
                        deck,
                        draws - 1,
                        frac_reduce((pos[i].1, deck_total(deck))),
                        self.tree_prob(),
                    )
                }
        } else {
            self.children().len() == 0
        }
    }

    /// The deck left after drawing one copy of the card labelled `k`.
    pub open spec fn deck_after_draw(deck: Seq<(Seq<char>, int)>, k: Seq<char>) -> Seq<
        (Seq<char>, int),
    > {
        deck.update(deck_index_of(deck, k), (k, deck_count_of(deck, k) - 1))
    }

    /// The tree built by `shrinking`: as `built_without_shrinking`, except
    /// that each child's subtree is built from the deck with that child's
    /// card removed once.
    pub closed spec fn built_shrinking(
        self,
        deck: Seq<(Seq<char>, int)>,
        draws: int,
        local: (int, int),
        parent: (int, int),
    ) -> bool
        decreases draws,
    {
        &&& self.local_prob() == local
        &&& self.tree_prob() == frac_reduce(frac_mul(parent, local))
        &&& if draws > 0 {
            let pos = deck_positive(deck);
            &&& self.children().len() == pos.len()
            &&& forall|i: int|
                0 <= i < pos.len() ==> {
                    &&& (#[trigger] self.children()[i]).0 == pos[i].0
                    &&& self.children()[i].1.built_shrinking(
                        Self::deck_after_draw(deck, pos[i].0),
                        draws - 1,
                        frac_reduce((pos[i].1, deck_total(deck))),
                        self.tree_prob(),
                    )
                }
        } else {
            self.children().len() == 0
        }
    }

    /// Creates a new empty tree: a single node with probability one.
    pub fn new() -> (t: CardDrawTree)
        ensures
            t.wf(),
            t.local_prob() == (1int, 1int),
            t.tree_prob() == (1int, 1int),
            t.children().len() == 0,
    {
        let one = Probability::one();
        let t = CardDrawTree { probability: one, probability_in_tree: one, nodes: Vec::new() };
        proof {
            assert(t.children() =~= Seq::<(Seq<char>, CardDrawTree)>::empty());
        }
        t
    }

    /// Creates a new leaf node with the given local probability under a
    /// parent reached with probability `parent`.
    fn new_node(probability: Probability, parent: Probability) -> (t: CardDrawTree)
        requires
            probability.wf(),
            parent.wf(),
            parent@.1 * probability@.1 <= u64::MAX,
        ensures
            t.wf(),
            t.children().len() == 0,
            t.local_prob() == probability@,
            t.tree_prob() == frac_reduce(frac_mul(parent@, probability@)),
            frac_eq(t.tree_prob(), frac_mul(parent@, probability@)),
            t.tree_prob().1 <= parent@.1 * probability@.1,
            (parent@.1 * probability@.1) % t.tree_prob().1 == 0,
            t.probability == probability,
    {
        let in_tree = parent.mul(probability);
        let t = CardDrawTree { probability, probability_in_tree: in_tree, nodes: Vec::new() };
        proof {
            assert(t.children() =~= Seq::<(Seq<char>, CardDrawTree)>::empty());
        }
        t
    }

    /// Returns `true` if the tree has no children at the root.
    pub fn is_empty(&self) -> (r: bool)
        ensures
            r == (self.children().len() == 0),
    {
        self.nodes.len() == 0
    }

    /// Creates a tree with one level from the given card deck: one child
    /// per distinct card with a positive count.
    pub fn create_from(card_deck: &CardDeck) -> (t: CardDrawTree)
        requires
            card_deck.wf(),
        ensures
            t.wf(),
            t.built_without_shrinking(card_deck@, 1, (1int, 1int), (1int, 1int)),
    {
        proof {
            lemma_pow_unfold(deck_total(card_deck@), 1);
            lemma_pow_zero(deck_total(card_deck@));
        }
        let one = Probability::one();
        Self::build_without_shrinking(card_deck, 1, one, one)
    }

    /// Creates a tree with `draws` levels where every level draws from the
    /// same unchanged deck: drawing with replacement.
    ///
    /// For a shrinking deck, see [`Self::shrinking`].
    pub fn without_shrinking(card_deck: &CardDeck, draws: u32) -> (t: CardDrawTree)
        requires
            card_deck.wf(),
            pow(deck_total(card_deck@), draws as nat) <= u64::MAX,
        ensures
            t.wf(),
            t.tree_prob() == (1int, 1int),
            t.local_prob() == (1int, 1int),
            t.built_without_shrinking(card_deck@, draws as int, (1int, 1int), (1int, 1int)),
    {
        proof {
            lemma_one_reduce();
        }
        let one = Probability::one();
        Self::build_without_shrinking(card_deck, draws, one, one)
    }

    /// Creates a tree with `draws` levels where each drawn card is removed
    /// from the deck seen below that branch: drawing without replacement.
    ///
    /// For a deck that does not shrink, see [`Self::without_shrinking`].
    pub fn shrinking(card_deck: &CardDeck, draws: u32) -> (t: CardDrawTree)
        requires
            card_deck.wf(),
            pow(deck_total(card_deck@), draws as nat) <= u64::MAX,
        ensures
            t.wf(),
            t.tree_prob() == (1int, 1int),
            t.local_prob() == (1int, 1int),
            t.built_shrinking(card_deck@, draws as int, (1int, 1int), (1int, 1int)),
    {
        proof {
            lemma_one_reduce();
        }
        let one = Probability::one();
        Self::build_shrinking(card_deck, draws, one, one)
    }

    /// Recursively builds the drawing-with-replacement tree.
    fn build_without_shrinking(
        card_deck: &CardDeck,
        draws: u32,
        probability: Probability,
        parent: Probability,
    ) -> (t: CardDrawTree)
        requires
            card_deck.wf(),
            probability.wf(),
            parent.wf(),
            parent@.1 * probability@.1 <= u64::MAX,
            parent@.1 * probability@.1 * pow(deck_total(card_deck@), draws as nat) <= u64::MAX,
        ensures
            t.wf(),
            t.built_without_shrinking(card_deck@, draws as int, probability@, parent@),
            t.path_den() <= pow(deck_total(card_deck@), draws as nat) || t.path_den() == 1,
        decreases draws,
    {
        let ghost deck = card_deck@;
        let ghost total = deck_total(card_deck@);
        let ghost budget = parent@.1 * probability@.1;
        proof {
            assert(parent@.1 * probability@.1 >= 1) by (nonlinear_arith)
                requires
                    parent@.1 >= 1,
                    probability@.1 >= 1;
            crate::cards::card_deck::lemma_deck_total_bounds(deck);
        }
        let mut tree = Self::new_node(probability, parent);
        if 0 < draws {
            let probs = card_deck.probabilities();
            let ghost pos = deck_positive(deck);
            let ghost tp = tree.tree_prob();
            let ghost pw1 = pow(total, (draws - 1) as nat);
            proof {
                lemma_pow_unfold(total, draws as nat);
                if probs.len() > 0 {
                    assert(probs@[0].1.wf());
                    assert(probs@[0].1@.1 <= total);
                    assert(total > 0);
                    vstd::arithmetic::power::lemma_pow_positive(total, draws as nat);
                    vstd::arithmetic::power::lemma_pow_positive(total, (draws - 1) as nat);
                }
            }
            let mut i: usize = 0;
            while i < probs.len()
                invariant
                    card_deck.wf(),
                    deck == card_deck@,
                    total == deck_total(deck),
                    pos == deck_positive(deck),
                    probs@.len() == pos.len(),
                    forall|j: int|
                        0 <= j < probs@.len() ==> {
                            &&& (#[trigger] probs@[j]).0@ == pos[j].0
                            &&& probs@[j].1.wf()
                            &&& probs@[j].1@ == frac_reduce((pos[j].1, total))
                            &&& probs@[j].1@.0 > 0
                            &&& probs@[j].1@.1 <= total
                            &&& total % probs@[j].1@.1 == 0
                        },
                    forall|j1: int, j2: int|
                        0 <= j1 < j2 < probs@.len() ==> card_lt(
                            (#[trigger] probs@[j1]).0@,
                            (#[trigger] probs@[j2]).0@,
                        ),
                    0 <= i <= probs@.len(),
                    total >= 0,
                    probability.wf(),
                    parent.wf(),
                    budget == parent@.1 * probability@.1,
                    budget >= 1,
                    budget <= u64::MAX,
                    budget * pow(total, draws as nat) <= u64::MAX,
                    draws >= 1,
                    pw1 == pow(total, (draws - 1) as nat),
                    pow(total, draws as nat) == total * pw1,
                    tree.probability == probability,
                    tree.local_prob() == probability@,
                    tree.tree_prob() == frac_reduce(frac_mul(parent@, probability@)),
                    tp == tree.tree_prob(),
                    tree.probability_in_tree.wf(),
                    tp.1 >= 1,
                    tp.1 <= budget,
                    tree.nodes@.len() == i,
                    forall|j: int| 0 <= j < i ==> (#[trigger] tree.nodes@[j]).0@ == pos[j].0,
                    forall|j: int| 0 <= j < i ==> (#[trigger] tree.nodes@[j]).1.wf(),
                    forall|j: int|
                        0 <= j < i ==> (#[trigger] tree.nodes@[j]).1.local_prob() == probs@[j].1@,
                    forall|j: int|
                        0 <= j < i ==> frac_eq(
                            (#[trigger] tree.nodes@[j]).1.tree_prob(),
                            frac_mul(tp, tree.nodes@[j].1.local_prob()),
                        ),
                    forall|j: int|
                        0 <= j < i ==> (#[trigger] tree.nodes@[j]).1.built_without_shrinking(
                            deck,
                            draws - 1,
                            frac_reduce((pos[j].1, total)),
                            tp,
                        ),
                    1 <= tree.path_den_upto(i as int),
                    pos.len() > 0 ==> tree.path_den_upto(i as int) <= pow(total, draws as nat),
                decreases probs@.len() - i,
            {
                let p = probs[i].1;
                proof {
                    vstd::arithmetic::power::lemma_pow_positive(total, (draws - 1) as nat);
                    lemma_budget_step(budget, tp.1, p@.1, total, pw1);
                }
                let child = Self::build_without_shrinking(
                    card_deck,
                    draws - 1,
                    p,
                    tree.probability_in_tree,
                );
                let card = probs[i].0.clone();
                let ghost old_tree = tree;
                proof {
                    lemma_frac_mul_wf(tp, p@);
                    lemma_frac_reduce(frac_mul(tp, p@));
                    lemma_path_den_pos(child);
                }
                tree.nodes.push((card, child));
                proof {
                    lemma_upto_frame(tree, old_tree, i as int);
                    assert(tree.nodes@[i as int].1 == child);
                    assert(child.local_prob() == p@);
                    let branch = p@.1 * child.path_den();
                    assert(tree.path_den_upto(i as int + 1) == if branch
                        > tree.path_den_upto(i as int) {
                        branch
                    } else {
                        tree.path_den_upto(i as int)
                    });
                    if child.path_den() == 1 {
                        assert(branch <= pow(total, draws as nat)) by (nonlinear_arith)
                            requires
                                branch == p@.1 * 1,
                                1 <= p@.1 <= total,
                                pw1 >= 1,
                                pow(total, draws as nat) == total * pw1;
                    } else {
                        assert(branch <= pow(total, draws as nat)) by (nonlinear_arith)
                            requires
                                branch == p@.1 * child.path_den(),
                                1 <= p@.1 <= total,
                                1 <= child.path_den() <= pw1,
                                pow(total, draws as nat) == total * pw1;
                    }
                }
                i = i + 1;
            }
            proof {
                lemma_pow_base_le(0, total, draws as nat);
                assert(pow(total, draws as nat) <= u64::MAX) by (nonlinear_arith)
                    requires
                        budget >= 1,
                        pow(total, draws as nat) >= 0,
                        budget * pow(total, draws as nat) <= u64::MAX;
                if tree.nodes@.len() > 0 {
                    assert(tree.path_den() == tree.path_den_upto(tree.nodes@.len() as int));
                } else {
                    assert(tree.path_den() == 1);
                }
                Self::lemma_assemble(&tree, probs@, pos, total);
                assert forall|ii: int| 0 <= ii < pos.len() implies {
                    &&& (#[trigger] tree.children()[ii]).0 == pos[ii].0
                    &&& tree.children()[ii].1.built_without_shrinking(
                        deck,
                        draws - 1,
                        frac_reduce((pos[ii].1, total)),
                        tree.tree_prob(),
                    )
                } by {
                    assert(tree.children()[ii] == (tree.nodes@[ii].0@, tree.nodes@[ii].1));
                }
                assert(tree.built_without_shrinking(deck, draws as int, probability@, parent@));
            }
        } else {
            proof {
                assert(tree.path_den() == 1);
                assert(tree.built_without_shrinking(deck, draws as int, probability@, parent@));
            }
        }
        tree
    }

    /// Recursively builds the drawing-without-replacement tree.
    fn build_shrinking(
        card_deck: &CardDeck,
        draws: u32,
        probability: Probability,
        parent: Probability,
    ) -> (t: CardDrawTree)
        requires
            card_deck.wf(),
            probability.wf(),
            parent.wf(),
            parent@.1 * probability@.1 <= u64::MAX,
            parent@.1 * probability@.1 * pow(deck_total(card_deck@), draws as nat) <= u64::MAX,
        ensures
            t.wf(),
            t.built_shrinking(card_deck@, draws as int, probability@, parent@),
            t.path_den() <= pow(deck_total(card_deck@), draws as nat) || t.path_den() == 1,
        decreases draws,
    {
        let ghost deck = card_deck@;
        let ghost total = deck_total(card_deck@);
        let ghost budget = parent@.1 * probability@.1;
        proof {
            assert(parent@.1 * probability@.1 >= 1) by (nonlinear_arith)
                requires
                    parent@.1 >= 1,
                    probability@.1 >= 1;
            crate::cards::card_deck::lemma_deck_total_bounds(deck);
        }
        let mut tree = Self::new_node(probability, parent);
        if 0 < draws {
            let probs = card_deck.probabilities();
            let ghost pos = deck_positive(deck);
            let ghost tp = tree.tree_prob();
            let ghost pw1 = pow(total, (draws - 1) as nat);
            proof {
                lemma_pow_unfold(total, draws as nat);
                if probs.len() > 0 {
                    assert(probs@[0].1.wf());
                    assert(probs@[0].1@.1 <= total);
                    assert(total > 0);
                    vstd::arithmetic::power::lemma_pow_positive(total, draws as nat);
                    vstd::arithmetic::power::lemma_pow_positive(total, (draws - 1) as nat);
                }
            }
            let mut i: usize = 0;
            while i < probs.len()
                invariant
                    card_deck.wf(),
                    deck == card_deck@,
                    total == deck_total(deck),
                    pos == deck_positive(deck),
                    probs@.len() == pos.len(),
                    forall|j: int|
                        0 <= j < probs@.len() ==> {
                            &&& (#[trigger] probs@[j]).0@ == pos[j].0
                            &&& probs@[j].1.wf()
                            &&& probs@[j].1@ == frac_reduce((pos[j].1, total))
                            &&& probs@[j].1@.0 > 0
                            &&& probs@[j].1@.1 <= total
                            &&& total % probs@[j].1@.1 == 0
                        },
                    forall|j1: int, j2: int|
                        0 <= j1 < j2 < probs@.len() ==> card_lt(
                            (#[trigger] probs@[j1]).0@,
                            (#[trigger] probs@[j2]).0@,
                        ),
                    0 <= i <= probs@.len(),
                    total >= 0,
                    probability.wf(),
                    parent.wf(),
                    budget == parent@.1 * probability@.1,
                    budget >= 1,
                    budget <= u64::MAX,
                    budget * pow(total, draws as nat) <= u64::MAX,
                    draws >= 1,
                    pw1 == pow(total, (draws - 1) as nat),
                    pow(total, draws as nat) == total * pw1,
                    tree.probability == probability,
                    tree.local_prob() == probability@,
                    tree.tree_prob() == frac_reduce(frac_mul(parent@, probability@)),
                    tp == tree.tree_prob(),
                    tree.probability_in_tree.wf(),
                    tp.1 >= 1,
                    tp.1 <= budget,
                    tree.nodes@.len() == i,
                    forall|j: int| 0 <= j < i ==> (#[trigger] tree.nodes@[j]).0@ == pos[j].0,
                    forall|j: int| 0 <= j < i ==> (#[trigger] tree.nodes@[j]).1.wf(),
                    forall|j: int|
                        0 <= j < i ==> (#[trigger] tree.nodes@[j]).1.local_prob() == probs@[j].1@,
                    forall|j: int|
                        0 <= j < i ==> frac_eq(
                            (#[trigger] tree.nodes@[j]).1.tree_prob(),
                            frac_mul(tp, tree.nodes@[j].1.local_prob()),
                        ),
                    forall|j: int|
                        0 <= j < i ==> (#[trigger] tree.nodes@[j]).1.built_shrinking(
                            Self::deck_after_draw(deck, pos[j].0),
                            draws - 1,
                            frac_reduce((pos[j].1, total)),
                            tp,
                        ),
                    1 <= tree.path_den_upto(i as int),
                    pos.len() > 0 ==> tree.path_den_upto(i as int) <= pow(total, draws as nat),
                decreases probs@.len() - i,
            {
                let p = probs[i].1;
                let card = probs[i].0.clone();
                proof {
                    crate::cards::card_deck::lemma_deck_positive_entry(deck, i as int);
                    vstd::arithmetic::power::lemma_pow_positive(total, (draws - 1) as nat);
                    lemma_budget_step(budget, tp.1, p@.1, total, pw1);
                }
                let smaller = card_deck.draw(card);
                let card_again = probs[i].0.clone();
                proof {
                    assert(smaller@ == Self::deck_after_draw(deck, pos[i as int].0));
                    lemma_pow_base_le(deck_total(smaller@), total, (draws - 1) as nat);
                    lemma_shrink_budget(
                        tp.1,
                        p@.1,
                        pow(deck_total(smaller@), (draws - 1) as nat),
                        pw1,
                    );
                }
                let child = Self::build_shrinking(&smaller, draws - 1, p, tree.probability_in_tree);
                let ghost old_tree = tree;
                proof {
                    lemma_frac_mul_wf(tp, p@);
                    lemma_frac_reduce(frac_mul(tp, p@));
                    lemma_path_den_pos(child);
                }
                tree.nodes.push((card_again, child));
                proof {
                    lemma_upto_frame(tree, old_tree, i as int);
                    assert(tree.nodes@[i as int].1 == child);
                    assert(child.local_prob() == p@);
                    let branch = p@.1 * child.path_den();
                    assert(tree.path_den_upto(i as int + 1) == if branch
                        > tree.path_den_upto(i as int) {
                        branch
                    } else {
                        tree.path_den_upto(i as int)
                    });
                    lemma_pow_base_le(deck_total(smaller@), total, (draws - 1) as nat);
                    if child.path_den() == 1 {
                        assert(branch <= pow(total, draws as nat)) by (nonlinear_arith)
                            requires
                                branch == p@.1 * 1,
                                1 <= p@.1 <= total,
                                pw1 >= 1,
                                pow(total, draws as nat) == total * pw1;
                    } else {
                        assert(branch <= pow(total, draws as nat)) by (nonlinear_arith)
                            requires
                                branch == p@.1 * child.path_den(),
                                1 <= p@.1 <= total,
                                1 <= child.path_den(),
                                child.path_den() <= pow(
                                    deck_total(Self::deck_after_draw(deck, pos[i as int].0)),
                                    (draws - 1) as nat,
                                ),
                                pow(
                                    deck_total(Self::deck_after_draw(deck, pos[i as int].0)),
                                    (draws - 1) as nat,
                                ) <= pw1,
                                pow(total, draws as nat) == total * pw1;
                    }
                }
                i = i + 1;
            }
            proof {
                lemma_pow_base_le(0, total, draws as nat);
                assert(pow(total, draws as nat) <= u64::MAX) by (nonlinear_arith)
                    requires
                        budget >= 1,
                        pow(total, draws as nat) >= 0,
                        budget * pow(total, draws as nat) <= u64::MAX;
                if tree.nodes@.len() > 0 {
                    assert(tree.path_den() == tree.path_den_upto(tree.nodes@.len() as int));
                } else {
                    assert(tree.path_den() == 1);
                }
                Self::lemma_assemble(&tree, probs@, pos, total);
                assert forall|ii: int| 0 <= ii < pos.len() implies {
                    &&& (#[trigger] tree.children()[ii]).0 == pos[ii].0
                    &&& tree.children()[ii].1.built_shrinking(
                        Self::deck_after_draw(deck, pos[ii].0),
                        draws - 1,
                        frac_reduce((pos[ii].1, total)),
                        tree.tree_prob(),
                    )
                } by {
                    assert(tree.children()[ii] == (tree.nodes@[ii].0@, tree.nodes@[ii].1));
                }
                assert(tree.built_shrinking(deck, draws as int, probability@, parent@));
            }
        } else {
            proof {
                assert(tree.path_den() == 1);
                assert(tree.built_shrinking(deck, draws as int, probability@, parent@));
            }
        }
        tree
    }

    /// After the loop of a builder, the assembled node satisfies the tree
    /// invariant.
    proof fn lemma_assemble(
        tree: &CardDrawTree,
        probs: Seq<(Card, Probability)>,
        pos: Seq<(Seq<char>, int)>,
        total: int,
    )
        requires
            tree.probability.wf(),
            tree.probability_in_tree.wf(),
            tree.nodes@.len() == probs.len(),
            probs.len() == pos.len(),
            forall|j: int|
                0 <= j < probs.len() ==> {
                    &&& (#[trigger] probs[j]).0@ == pos[j].0
                    &&& probs[j].1.wf()
                },
            forall|j1: int, j2: int|
                0 <= j1 < j2 < probs.len() ==> card_lt(
                    (#[trigger] probs[j1]).0@,
                    (#[trigger] probs[j2]).0@,
                ),
            probs.len() > 0 ==> frac_eq(
                frac_sum(probs.map_values(|e: (Card, Probability)| e.1@)),
                (1int, 1int),
            ),
            forall|j: int| 0 <= j < tree.nodes@.len() ==> (#[trigger] tree.nodes@[j]).0@ == pos[j].0,
            forall|j: int| 0 <= j < tree.nodes@.len() ==> (#[trigger] tree.nodes@[j]).1.wf(),
            forall|j: int|
                0 <= j < tree.nodes@.len() ==> (#[trigger] tree.nodes@[j]).1.local_prob()
                    == probs[j].1@,
            forall|j: int|
                0 <= j < tree.nodes@.len() ==> frac_eq(
                    (#[trigger] tree.nodes@[j]).1.tree_prob(),
                    frac_mul(tree.tree_prob(), tree.nodes@[j].1.local_prob()),
                ),
            tree.path_den() <= u64::MAX,
        ensures
            tree.wf(),
    {
        assert(tree.child_locals() =~= probs.map_values(|e: (Card, Probability)| e.1@)) by {
            assert(forall|j: int|
                0 <= j < tree.nodes@.len() ==> (#[trigger] tree.children()[j]).1
                    == tree.nodes@[j].1);
        }
    }
}

impl CardDrawTree {
    /// Whether this node has a child for the card labelled `k`.
    pub closed spec fn has_child(self, k: Seq<char>) -> bool {
        exists|i: int| 0 <= i < self.nodes@.len() && (#[trigger] self.nodes@[i]).0@ == k
    }

    /// The index of the child for the card labelled `k`, if any.
    pub closed spec fn child_index(self, k: Seq<char>) -> int {
        choose|i: int| 0 <= i < self.nodes@.len() && (#[trigger] self.nodes@[i]).0@ == k
    }

    /// The probability of drawing exactly the given sequence of cards from
    /// this node on: the product of the local probabilities along the path,
    /// and zero as soon as a card has no branch.
    pub closed spec fn seq_prob(self, s: Seq<Seq<char>>) -> (int, int)
        decreases s.len(),
    {
        if s.len() == 0 {
            (1, 1)
        } else if self.has_child(s[0]) {
            frac_mul(
                self.nodes@[self.child_index(s[0])].1.probability@,
                self.nodes@[self.child_index(s[0])].1.seq_prob(s.drop_first()),
            )
        } else {
            (0, 1)
        }
    }

    /// Returns the probability of drawing a certain sequence of cards in
    /// the tree, in draw order, starting among the root's children.
    ///
    /// A sequence that leaves the tree has probability zero; the empty
    /// sequence has probability one.
    pub fn probability_of(&self, sequence: &[Card]) -> (p: Probability)
        requires
            self.wf(),
        ensures
            p.wf(),
            frac_eq(p@, self.seq_prob(sequence@.map_values(|c: Card| c@))),
            sequence@.len() == 0 ==> p@ == (1int, 1int),
    {
        proof {
            assert(sequence@.map_values(|c: Card| c@).skip(0) =~= sequence@.map_values(
                |c: Card| c@,
            ));
        }
        self.probability_of_from(sequence, 0)
    }

    /// Walks the tree from position `start` in the sequence.
    #[verifier::loop_isolation(false)]
    fn probability_of_from(&self, sequence: &[Card], start: usize) -> (p: Probability)
        requires
            self.wf(),
            start <= sequence@.len(),
        ensures
            p.wf(),
            frac_eq(p@, self.seq_prob(sequence@.map_values(|c: Card| c@).skip(start as int))),
            p@.1 <= self.path_den(),
            start == sequence@.len() ==> p@ == (1int, 1int),
        decreases sequence@.len() - start,
    {
        let ghost labels = sequence@.map_values(|c: Card| c@).skip(start as int);
        proof {
            lemma_path_den_pos(*self);
        }
        if start >= sequence.len() {
            let one = Probability::one();
            return one;
        }
        assert(labels.len() > 0);
        assert(labels[0] == sequence@[start as int]@);
        let mut i: usize = 0;
        while i < self.nodes.len()
            invariant
                self.wf(),
                start < sequence@.len(),
                0 <= i <= self.nodes@.len(),
                forall|j: int|
                    0 <= j < i ==> (#[trigger] self.nodes@[j]).0@ != sequence@[start as int]@,
            decreases self.nodes@.len() - i,
        {
            if self.nodes[i].0.same(&sequence[start]) {
                let ghost key = sequence@[start as int]@;
                proof {
                    assert(self.nodes@[i as int].0@ == key);
                    assert(self.has_child(key));
                }
                proof {
                    let w = self.child_index(key);
                    if w != i {
                        assert(card_lt(self.nodes@[w].0@, self.nodes@[i as int].0@) || card_lt(
                            self.nodes@[i as int].0@,
                            self.nodes@[w].0@,
                        ));
                        crate::cards::card::lemma_card_lt_irreflexive(key);
                    }
                    assert(self.child_index(key) == i);
                    assert(self.nodes@[i as int].1.wf());
                }
                let rest = self.nodes[i].1.probability_of_from(sequence, start + 1);
                proof {
                    lemma_upto_ge(*self, self.nodes@.len() as int, i as int);
                    assert(self.path_den() == self.path_den_upto(self.nodes@.len() as int));
                    lemma_path_den_pos(self.nodes@[i as int].1);
                    assert(self.nodes@[i as int].1.probability@.1 * rest@.1 <= self.nodes@[
                        i as int].1.probability@.1 * self.nodes@[i as int].1.path_den())
                        by (nonlinear_arith)
                        requires
                            self.nodes@[i as int].1.probability@.1 >= 0,
                            rest@.1 <= self.nodes@[i as int].1.path_den();
                    assert(self.nodes@[i as int].1.probability@.1 * rest@.1 <= self.path_den());
                }
                let p = self.nodes[i].1.probability.mul(rest);
                proof {
                    // p ~ local * rest ~ local * seq_prob(child, tail) == seq_prob(self, labels)
                    let local = self.nodes@[i as int].1.probability@;
                    let tail = sequence@.map_values(|c: Card| c@).skip(start as int + 1);
                    assert(labels.drop_first() =~= tail);
                    crate::rational::lemma_frac_mul_congruence(
                        local,
                        rest@,
                        local,
                        self.nodes@[i as int].1.seq_prob(tail),
                    );
                    lemma_frac_mul_wf(local, rest@);
                    crate::rational::lemma_frac_eq_transitive(
                        p@,
                        frac_mul(local, rest@),
                        frac_mul(local, self.nodes@[i as int].1.seq_prob(tail)),
                    );
                }
                return p;
            }
            i = i + 1;
        }
        proof {
            assert(!self.has_child(labels[0]));
        }
        let zero = Probability::zero();
        zero
    }

    /// Every draw probability is a valid probability of at most one.
    pub proof fn lemma_seq_prob_valid(self, s: Seq<Seq<char>>)
        requires
            self.wf(),
        ensures
            frac_wf(self.seq_prob(s)),
            crate::rational::frac_le(self.seq_prob(s), (1int, 1int)),
        decreases s.len(),
    {
        if s.len() > 0 && self.has_child(s[0]) {
            let c = self.nodes@[self.child_index(s[0])].1;
            assert(c.wf());
            c.lemma_seq_prob_valid(s.drop_first());
            crate::rational::lemma_frac_mul_le(c.probability@, c.seq_prob(s.drop_first()));
            lemma_frac_mul_wf(c.probability@, c.seq_prob(s.drop_first()));
        }
    }

    /// Extending a sequence of draws never increases its probability: the
    /// probability of a longer specific continuation never exceeds that of
    /// its prefix.
    pub proof fn lemma_seq_prob_monotone(self, prefix: Seq<Seq<char>>, extension: Seq<Seq<char>>)
        requires
            self.wf(),
        ensures
            crate::rational::frac_le(self.seq_prob(prefix + extension), self.seq_prob(prefix)),
        decreases prefix.len(),
    {
        let whole = prefix + extension;
        if prefix.len() == 0 {
            assert(whole =~= extension);
            self.lemma_seq_prob_valid(extension);
        } else {
            assert(whole[0] == prefix[0]);
            if self.has_child(prefix[0]) {
                let c = self.nodes@[self.child_index(prefix[0])].1;
                assert(c.wf());
                assert(whole.drop_first() =~= prefix.drop_first() + extension);
                c.lemma_seq_prob_monotone(prefix.drop_first(), extension);
                c.lemma_seq_prob_valid(prefix.drop_first() + extension);
                c.lemma_seq_prob_valid(prefix.drop_first());
                crate::rational::lemma_frac_mul_le_right(
                    c.probability@,
                    c.seq_prob(prefix.drop_first() + extension),
                    c.seq_prob(prefix.drop_first()),
                );
            }
        }
    }

    /// The absolute probabilities of all leaves below this node, in the
    /// deterministic traversal order.
    pub closed spec fn leaf_probs(self) -> Seq<(int, int)>
        decreases self, 1int, 0int,
    {
        if self.nodes@.len() == 0 {
            seq![self.probability_in_tree@]
        } else {
            self.leaf_probs_upto(self.nodes@.len() as int)
        }
    }

    /// The leaf probabilities collected from the first `k` children.
    pub closed spec fn leaf_probs_upto(self, k: int) -> Seq<(int, int)>
        decreases self, 0int, k,
    {
        if k <= 0 || k > self.nodes@.len() {
            Seq::empty()
        } else {
            self.leaf_probs_upto(k - 1) + self.nodes@[k - 1].1.leaf_probs()
        }
    }

    /// All leaf probabilities are valid probabilities.
    pub proof fn lemma_leaf_probs_valid(self)
        requires
            self.wf(),
        ensures
            forall|i: int|
                0 <= i < self.leaf_probs().len() ==> frac_wf(#[trigger] self.leaf_probs()[i]),
            self.leaf_probs().len() >= 1,
        decreases self, 1int, 0int,
    {
        if self.nodes@.len() > 0 {
            self.lemma_leaf_probs_upto_valid(self.nodes@.len() as int);
        }
    }

    /// Leaf probabilities from a child prefix are valid, and a non-empty
    /// prefix contributes at least one leaf.
    proof fn lemma_leaf_probs_upto_valid(self, k: int)
        requires
            self.wf(),
            0 < k <= self.nodes@.len(),
        ensures
            forall|i: int|
                0 <= i < self.leaf_probs_upto(k).len() ==> frac_wf(
                    #[trigger] self.leaf_probs_upto(k)[i],
                ),
            self.leaf_probs_upto(k).len() >= 1,
        decreases self, 0int, k,
    {
        assert(self.nodes@[k - 1].1.wf());
        self.nodes@[k - 1].1.lemma_leaf_probs_valid();
        if k > 1 {
            self.lemma_leaf_probs_upto_valid(k - 1);
        }
    }

    /// The sum of the absolute probabilities of all leaves below a node is
    /// exactly the node's own absolute probability: probability mass is
    /// neither lost nor created by branching.
    pub proof fn lemma_leaf_sum(self)
        requires
            self.wf(),
        ensures
            frac_eq(frac_sum(self.leaf_probs()), self.tree_prob()),
        decreases self, 1int, 0int,
    {
        crate::rational::lemma_frac_sum_wf(Seq::<(int, int)>::empty());
        if self.nodes@.len() == 0 {
            let s = seq![self.probability_in_tree@];
            assert(s.drop_last() =~= Seq::<(int, int)>::empty());
            assert(frac_sum(s) == frac_add((0int, 1int), self.probability_in_tree@));
        } else {
            let n = self.nodes@.len() as int;
            self.lemma_leaf_sum_upto(n);
            let locals = self.child_locals();
            assert(self.kid_locals_take(n) =~= locals);
            // sum(leaves) ~ P * sum(locals) ~ P * 1 == P
            let p = self.probability_in_tree@;
            self.lemma_child_locals_wf();
            crate::rational::lemma_frac_sum_wf(locals);
            crate::rational::lemma_frac_mul_congruence(
                p,
                frac_sum(locals),
                p,
                (1int, 1int),
            );
            lemma_frac_mul_wf(p, frac_sum(locals));
            crate::rational::lemma_frac_eq_transitive(
                frac_sum(self.leaf_probs()),
                frac_mul(p, frac_sum(locals)),
                frac_mul(p, (1int, 1int)),
            );
            assert(frac_mul(p, (1int, 1int)) == (p.0 * 1, p.1 * 1));
            assert(frac_eq(frac_mul(p, (1int, 1int)), p)) by (nonlinear_arith);
            crate::rational::lemma_frac_mul_wf(p, (1int, 1int));
            crate::rational::lemma_frac_eq_transitive(
                frac_sum(self.leaf_probs()),
                frac_mul(p, (1int, 1int)),
                p,
            );
        }
    }

    /// The local probabilities of the first `k` children.
    pub open spec fn kid_locals_take(self, k: int) -> Seq<(int, int)> {
        Seq::new(k as nat, |i: int| self.children()[i].1.local_prob())
    }

    /// All child locals are well-formed fractions.
    proof fn lemma_child_locals_wf(self)
        requires
            self.wf(),
        ensures
            forall|i: int|
                0 <= i < self.child_locals().len() ==> frac_wf(#[trigger] self.child_locals()[i]),
            forall|i: int|
                0 <= i < self.nodes@.len() ==> frac_wf(#[trigger] self.kid_locals_take(
                    self.nodes@.len() as int,
                )[i]),
    {
        assert forall|i: int|
            0 <= i < self.child_locals().len() implies frac_wf(
            #[trigger] self.child_locals()[i],
        ) by {
            assert(self.nodes@[i].1.wf());
            assert(self.child_locals()[i] == self.nodes@[i].1.probability@);
        }
        assert forall|i: int|
            0 <= i < self.nodes@.len() implies frac_wf(#[trigger] self.kid_locals_take(
            self.nodes@.len() as int,
        )[i]) by {
            assert(self.nodes@[i].1.wf());
            assert(self.kid_locals_take(self.nodes@.len() as int)[i] == self.nodes@[
                i].1.probability@);
        }
    }

    /// The running version of [`CardDrawTree::lemma_leaf_sum`]: the leaves
    /// of the first `k` children sum to this node's probability times the
    /// sum of those children's local probabilities.
    proof fn lemma_leaf_sum_upto(self, k: int)
        requires
            self.wf(),
            0 <= k <= self.nodes@.len(),
        ensures
            frac_eq(
                frac_sum(self.leaf_probs_upto(k)),
                frac_mul(self.probability_in_tree@, frac_sum(self.kid_locals_take(k))),
            ),
        decreases self, 0int, k,
    {
        let p = self.probability_in_tree@;
        if k == 0 {
            assert(self.kid_locals_take(0) =~= Seq::<(int, int)>::empty());
            assert(frac_mul(p, (0int, 1int)) == (p.0 * 0, p.1 * 1));
            assert(frac_eq((0int, 1int), frac_mul(p, (0int, 1int)))) by (nonlinear_arith)
                requires
                    frac_mul(p, (0int, 1int)) == (p.0 * 0, p.1 * 1),
                    p.1 > 0;
        } else {
            self.lemma_leaf_sum_upto(k - 1);
            let c = self.nodes@[k - 1].1;
            assert(c.wf());
            c.lemma_leaf_sum();
            c.lemma_leaf_probs_valid();
            self.lemma_child_locals_wf();
            // Gather well-formedness of the pieces.
            assert forall|i: int|
                0 <= i < self.leaf_probs_upto(k - 1).len() implies frac_wf(
                #[trigger] self.leaf_probs_upto(k - 1)[i],
            ) by {
                if k - 1 > 0 {
                    self.lemma_leaf_probs_upto_valid(k - 1);
                }
            }
            crate::rational::lemma_frac_sum_wf(self.leaf_probs_upto(k - 1));
            crate::rational::lemma_frac_sum_wf(c.leaf_probs());
            // sum(prefix + c.leaves) ~ add(sum(prefix), sum(c.leaves))
            crate::rational::lemma_frac_sum_concat(self.leaf_probs_upto(k - 1), c.leaf_probs());
            // ~ add(p * sum(locals take k-1), p * local_c)
            let sl = frac_sum(self.kid_locals_take(k - 1));
            assert forall|i: int|
                0 <= i < self.kid_locals_take(k - 1).len() implies frac_wf(
                #[trigger] self.kid_locals_take(k - 1)[i],
            ) by {
                assert(self.kid_locals_take(k - 1)[i] == self.nodes@[i].1.probability@);
                assert(self.nodes@[i].1.wf());
            }
            crate::rational::lemma_frac_sum_wf(self.kid_locals_take(k - 1));
            lemma_frac_mul_wf(p, sl);
            lemma_frac_mul_wf(p, c.probability@);
            crate::rational::lemma_frac_add_wf(
                frac_sum(self.leaf_probs_upto(k - 1)),
                frac_sum(c.leaf_probs()),
            );
            assert(frac_eq(c.probability_in_tree@, frac_mul(p, c.probability@)));
            crate::rational::lemma_frac_eq_transitive(
                frac_sum(c.leaf_probs()),
                c.probability_in_tree@,
                frac_mul(p, c.probability@),
            );
            crate::rational::lemma_frac_add_congruence(
                frac_sum(self.leaf_probs_upto(k - 1)),
                frac_sum(c.leaf_probs()),
                frac_mul(p, sl),
                frac_mul(p, c.probability@),
            );
            // ~ p * add(sum(locals take k-1), local_c) == p * sum(locals take k)
            crate::rational::lemma_frac_mul_distributes(p, sl, c.probability@);
            assert(self.kid_locals_take(k).drop_last() =~= self.kid_locals_take(k - 1));
            assert(self.kid_locals_take(k).last() == c.probability@);
            assert(frac_sum(self.kid_locals_take(k)) == frac_add(sl, c.probability@));
            crate::rational::lemma_frac_add_wf(frac_mul(p, sl), frac_mul(p, c.probability@));
            crate::rational::lemma_frac_eq_transitive(
                frac_sum(self.leaf_probs_upto(k)),
                frac_add(frac_sum(self.leaf_probs_upto(k - 1)), frac_sum(c.leaf_probs())),
                frac_add(frac_mul(p, sl), frac_mul(p, c.probability@)),
            );
            crate::rational::lemma_frac_add_wf(sl, c.probability@);
            crate::rational::lemma_frac_eq_transitive(
                frac_sum(self.leaf_probs_upto(k)),
                frac_add(frac_mul(p, sl), frac_mul(p, c.probability@)),
                frac_mul(p, frac_add(sl, c.probability@)),
            );
        }
    }

    /// The card paths of all leaves below this node, relative to this
    /// node, in the deterministic traversal order.
    pub closed spec fn leaf_paths(self) -> Seq<Seq<Seq<char>>>
        decreases self, 1int, 0int,
    {
        if self.nodes@.len() == 0 {
            seq![Seq::<Seq<char>>::empty()]
        } else {
            self.leaf_paths_upto(self.nodes@.len() as int)
        }
    }

    /// The leaf paths collected from the first `k` children.
    pub closed spec fn leaf_paths_upto(self, k: int) -> Seq<Seq<Seq<char>>>
        decreases self, 0int, k,
    {
        if k <= 0 || k > self.nodes@.len() {
            Seq::empty()
        } else {
            self.leaf_paths_upto(k - 1) + self.nodes@[k - 1].1.leaf_paths().map_values(
                |pa: Seq<Seq<char>>| seq![self.nodes@[k - 1].0@] + pa,
            )
        }
    }

    /// There are as many leaf paths as leaf probabilities.
    pub proof fn lemma_leaf_lens(self)
        ensures
            self.leaf_paths().len() == self.leaf_probs().len(),
        decreases self, 1int, 0int,
    {
        if self.nodes@.len() > 0 {
            self.lemma_leaf_lens_upto(self.nodes@.len() as int);
        }
    }

    /// The prefix versions also agree in length.
    proof fn lemma_leaf_lens_upto(self, k: int)
        requires
            0 <= k <= self.nodes@.len(),
        ensures
            self.leaf_paths_upto(k).len() == self.leaf_probs_upto(k).len(),
        decreases self, 0int, k,
    {
        if k > 0 {
            self.lemma_leaf_lens_upto(k - 1);
            self.nodes@[k - 1].1.lemma_leaf_lens();
        }
    }

    /// Returns all paths from the root to a leaf, each with its exact
    /// absolute probability, in the deterministic traversal order.
    pub fn paths(&self) -> (r: Vec<CardDrawSequence>)
        requires
            self.wf(),
        ensures
            r@.len() == self.leaf_probs().len(),
            forall|i: int| 0 <= i < r@.len() ==> (#[trigger] r@[i])@.1 == self.leaf_probs()[i],
            forall|i: int| 0 <= i < r@.len() ==> (#[trigger] r@[i])@.0 == self.leaf_paths()[i],
            forall|i: int| 0 <= i < r@.len() ==> (#[trigger] r@[i]).wf(),
            r@.map_values(|e: CardDrawSequence| e@.1) == self.leaf_probs(),
    {
        let empty: Vec<Card> = Vec::new();
        let r = self.create_paths(empty.as_slice());
        proof {
            self.lemma_leaf_lens();
            assert forall|i: int| 0 <= i < r@.len() implies (#[trigger] r@[i])@.0
                == self.leaf_paths()[i] by {
                assert(empty@.map_values(|c: Card| c@) =~= Seq::<Seq<char>>::empty());
                assert(r@[i]@.0 =~= self.leaf_paths()[i]);
            }
            assert(r@.map_values(|e: CardDrawSequence| e@.1) =~= self.leaf_probs());
        }
        r
    }

    /// Collects one sequence per leaf below this node, each prefixed with
    /// the cards drawn to reach this node.
    fn create_paths(&self, sequence: &[Card]) -> (r: Vec<CardDrawSequence>)
        requires
            self.wf(),
        ensures
            r@.len() == self.leaf_probs().len(),
            forall|i: int| 0 <= i < r@.len() ==> (#[trigger] r@[i])@.1 == self.leaf_probs()[i],
            forall|i: int|
                0 <= i < r@.len() ==> (#[trigger] r@[i])@.0 == sequence@.map_values(|c: Card| c@)
                    + self.leaf_paths()[i],
            forall|i: int| 0 <= i < r@.len() ==> (#[trigger] r@[i]).wf(),
        decreases *self,
    {
        let ghost prefix = sequence@.map_values(|c: Card| c@);
        let mut r: Vec<CardDrawSequence> = Vec::new();
        if self.nodes.len() == 0 {
            let cards = copy_cards(sequence);
            let leaf = CardDrawSequence::new(cards, self.probability_in_tree);
            r.push(leaf);
            proof {
                assert(self.leaf_probs() == seq![self.probability_in_tree@]);
                assert(r@[0]@.0 =~= prefix + self.leaf_paths()[0]);
            }
            return r;
        }
        proof {
            self.lemma_leaf_lens_upto(self.nodes@.len() as int);
        }
        let mut i: usize = 0;
        while i < self.nodes.len()
            invariant
                self.wf(),
                prefix == sequence@.map_values(|c: Card| c@),
                0 <= i <= self.nodes@.len(),
                self.nodes@.len() > 0,
                r@.len() == self.leaf_probs_upto(i as int).len(),
                self.leaf_paths_upto(i as int).len() == self.leaf_probs_upto(i as int).len(),
                forall|j: int|
                    0 <= j < r@.len() ==> (#[trigger] r@[j])@.1 == self.leaf_probs_upto(
                        i as int,
                    )[j],
                forall|j: int|
                    0 <= j < r@.len() ==> (#[trigger] r@[j])@.0 == prefix + self.leaf_paths_upto(
                        i as int,
                    )[j],
                forall|j: int| 0 <= j < r@.len() ==> (#[trigger] r@[j]).wf(),
            decreases self.nodes@.len() - i,
        {
            let ghost old_probs = self.leaf_probs_upto(i as int);
            let ghost old_paths = self.leaf_paths_upto(i as int);
            let ghost child = self.nodes@[i as int].1;
            let ghost key = self.nodes@[i as int].0@;
            proof {
                assert(child.wf());
                child.lemma_leaf_lens();
                self.lemma_leaf_lens_upto(i as int + 1);
            }
            let mut extended = copy_cards(sequence);
            let next_card = self.nodes[i].0.clone();
            extended.push(next_card);
            let mut sub = self.nodes[i].1.create_paths(extended.as_slice());
            let ghost sub_view = sub@;
            r.append(&mut sub);
            proof {
                assert(extended@.map_values(|c: Card| c@) =~= prefix + seq![key]);
                let mapped = child.leaf_paths().map_values(
                    |pa: Seq<Seq<char>>| seq![key] + pa,
                );
                assert(self.leaf_probs_upto(i as int + 1) == old_probs + child.leaf_probs());
                assert(self.leaf_paths_upto(i as int + 1) == old_paths + mapped);
                assert forall|j: int| 0 <= j < r@.len() implies (#[trigger] r@[j])@.1
                    == self.leaf_probs_upto(i as int + 1)[j] && r@[j]@.0 == prefix
                    + self.leaf_paths_upto(i as int + 1)[j] && r@[j].wf() by {
                    if j < old_probs.len() {
                        assert(r@[j]@.0 == prefix + old_paths[j]);
                        assert((old_paths + mapped)[j] == old_paths[j]);
                        assert((old_probs + child.leaf_probs())[j] == old_probs[j]);
                    } else {
                        let jj = j - old_probs.len();
                        assert(r@[j] == sub_view[jj]);
                        assert((old_probs + child.leaf_probs())[j] == child.leaf_probs()[jj]);
                        assert((old_paths + mapped)[j] == mapped[jj]);
                        assert(mapped[jj] == seq![key] + child.leaf_paths()[jj]);
                        assert(sub_view[jj]@.0 == (prefix + seq![key]) + child.leaf_paths()[jj]);
                        assert(prefix + ((old_paths + mapped)[j]) =~= (prefix + seq![key])
                            + child.leaf_paths()[jj]);
                    }
                }
            }
            i = i + 1;
        }
        proof {
            assert(self.leaf_probs() == self.leaf_probs_upto(self.nodes@.len() as int));
            assert(self.leaf_paths() == self.leaf_paths_upto(self.nodes@.len() as int));
        }
        r
    }

    /// The number of nodes strictly below this one.
    pub closed spec fn descendant_count(self) -> int
        decreases self, 1int, 0int,
    {
        self.desc_upto(self.nodes@.len() as int)
    }

    /// The number of nodes in the subtrees of the first `k` children.
    pub closed spec fn desc_upto(self, k: int) -> int
        decreases self, 0int, k,
    {
        if k <= 0 || k > self.nodes@.len() {
            0
        } else {
            self.desc_upto(k - 1) + 1 + self.nodes@[k - 1].1.descendant_count()
        }
    }

    /// Node counts are non-negative.
    pub proof fn lemma_desc_nonneg(self)
        ensures
            self.descendant_count() >= 0,
            forall|k: int| #[trigger] self.desc_upto(k) >= 0,
        decreases self, 1int, 0int,
    {
        assert forall|k: int| #[trigger] self.desc_upto(k) >= 0 by {
            self.lemma_desc_upto_nonneg(k);
        }
        self.lemma_desc_upto_nonneg(self.nodes@.len() as int);
        assert(self.descendant_count() == self.desc_upto(self.nodes@.len() as int));
    }

    /// Prefix node counts are non-negative.
    proof fn lemma_desc_upto_nonneg(self, k: int)
        ensures
            self.desc_upto(k) >= 0,
        decreases self, 0int, k,
    {
        if 0 < k <= self.nodes@.len() {
            self.lemma_desc_upto_nonneg(k - 1);
            self.nodes@[k - 1].1.lemma_desc_nonneg();
        }
    }

    /// The rendered lines of this node's children, each line starting with
    /// the given indentation.
    pub closed spec fn text_at(self, ind: Seq<char>) -> Seq<char>
        decreases self, 1int, 0int,
    {
        self.text_upto(ind, self.nodes@.len() as int)
    }

    /// The rendered lines of the first `k` children.
    pub closed spec fn text_upto(self, ind: Seq<char>, k: int) -> Seq<char>
        decreases self, 0int, k,
    {
        if k <= 0 || k > self.nodes@.len() {
            Seq::empty()
        } else {
            self.text_upto(ind, k - 1) + ind + "* "@ + self.nodes@[k - 1].0@ + " ("@ + crate::probability::frac_text(
                self.nodes@[k - 1].1.probability_in_tree@,
            ) + ")\n"@ + self.nodes@[k - 1].1.text_at(ind.push('\t'))
        }
    }

    /// The textual rendering of the whole tree: one `* card (probability)`
    /// line per node, children indented below their parent with tabs, and
    /// no trailing line break.
    pub closed spec fn tree_text(self) -> Seq<char> {
        if self.text_at(Seq::empty()).len() == 0 {
            Seq::empty()
        } else {
            self.text_at(Seq::empty()).drop_last()
        }
    }

    /// Renders the tree as indented text, one node per line with its
    /// absolute probability.
    pub fn to_text(&self) -> (s: String)
        ensures
            s@ == self.tree_text(),
    {
        let empty_indent = String::new();
        let mut out = String::new();
        self.push_text(empty_indent.as_str(), &mut out);
        proof {
            assert(out@ == self.text_at(Seq::empty()));
        }
        let n = out.as_str().unicode_len();
        if n == 0 {
            out
        } else {
            let trimmed = out.as_str().substring_char(0, n - 1);
            proof {
                assert(trimmed@ =~= self.tree_text());
            }
            trimmed.to_owned()
        }
    }

    /// Appends the rendering of this node's children to `out`, indenting
    /// each line with `ind`.
    #[verifier::loop_isolation(false)]
    fn push_text(&self, ind: &str, out: &mut String)
        ensures
            final(out)@ == old(out)@ + self.text_at(ind@),
        decreases *self,
    {
        proof {
            reveal_strlit("* ");
            reveal_strlit(" (");
            reveal_strlit(")\n");
            reveal_strlit("\t");
        }
        let ghost base = out@;
        let mut i: usize = 0;
        while i < self.nodes.len()
            invariant
                0 <= i <= self.nodes@.len(),
                out@ == base + self.text_upto(ind@, i as int),
            decreases self.nodes@.len() - i,
        {
            out.append(ind);
            out.append("* ");
            out.append(self.nodes[i].0.text());
            out.append(" (");
            let ptext = self.nodes[i].1.probability_in_tree.to_text();
            out.append(ptext.as_str());
            out.append(")\n");
            let mut deeper = ind.to_owned();
            deeper.append("\t");
            proof {
                assert(deeper@ =~= ind@.push('\t'));
            }
            self.nodes[i].1.push_text(deeper.as_str(), out);
            proof {
                assert(out@ =~= base + self.text_upto(ind@, i as int + 1));
            }
            i = i + 1;
        }
    }

    /// The two Graphviz lines for this node under `root`, followed by the
    /// rendering of its subtree; the second component is the last node
    /// identifier used.
    pub closed spec fn gv_sub(self, root: Seq<char>, card: Seq<char>, id: int) -> (Seq<char>, int)
        decreases self, 2int, 0int,
    {
        let name = card + "_"@ + crate::decimal::dec_rep(id);
        let line1 = "_"@ + root + "->"@ + "_"@ + name + "[label=\""@ + crate::probability::frac_text(
            self.probability@,
        ) + "\"];\n"@;
        let line2 = "_"@ + name + "[label=\""@ + card + " ("@ + crate::probability::frac_text(
            self.probability_in_tree@,
        ) + ")\"];\n"@;
        let inner = self.gv_iter(name, id);
        (line1 + line2 + inner.0, inner.1)
    }

    /// The Graphviz rendering of all children of this node, with node
    /// identifiers assigned in traversal order starting above `id`.
    pub closed spec fn gv_iter(self, root: Seq<char>, id: int) -> (Seq<char>, int)
        decreases self, 1int, 0int,
    {
        self.gv_upto(root, id, self.nodes@.len() as int)
    }

    /// The Graphviz rendering of the first `k` children.
    pub closed spec fn gv_upto(self, root: Seq<char>, id: int, k: int) -> (Seq<char>, int)
        decreases self, 0int, k,
    {
        if k <= 0 || k > self.nodes@.len() {
            (Seq::empty(), id)
        } else {
            let prev = self.gv_upto(root, id, k - 1);
            let sub = self.nodes@[k - 1].1.gv_sub(root, self.nodes@[k - 1].0@, prev.1 + 1);
            (prev.0 + sub.0, sub.1)
        }
    }

    /// The full Graphviz document for this tree.
    pub closed spec fn graphviz_text(self) -> Seq<char> {
        "digraph {\n_root[label=\"\", shape=\"circle\"];\n"@ + self.gv_iter("root"@, 1).0
            + "}"@
    }

    /// Identifiers are assigned consecutively: rendering a subtree uses
    /// exactly one identifier per node.
    proof fn lemma_gv_ids(self, root: Seq<char>, id: int)
        ensures
            self.gv_iter(root, id).1 == id + self.descendant_count(),
        decreases self, 1int, 0int,
    {
        self.lemma_gv_ids_upto(root, id, self.nodes@.len() as int);
    }

    /// The prefix version of [`CardDrawTree::lemma_gv_ids`].
    proof fn lemma_gv_ids_upto(self, root: Seq<char>, id: int, k: int)
        ensures
            self.gv_upto(root, id, k).1 == id + self.desc_upto(k),
        decreases self, 0int, k,
    {
        if 0 < k <= self.nodes@.len() {
            self.lemma_gv_ids_upto(root, id, k - 1);
            let prev = self.gv_upto(root, id, k - 1);
            let c = self.nodes@[k - 1].1;
            let card = self.nodes@[k - 1].0@;
            let name = card + "_"@ + crate::decimal::dec_rep(prev.1 + 1);
            c.lemma_gv_ids(name, prev.1 + 1);
            assert(c.gv_sub(root, card, prev.1 + 1).1 == c.gv_iter(name, prev.1 + 1).1);
            assert(self.gv_upto(root, id, k).1 == c.gv_sub(root, card, prev.1 + 1).1);
        }
    }

    /// Creates a Graphviz graph (`digraph` syntax) of the decision tree:
    /// one node per tree node labelled with its card and absolute
    /// probability, one edge per branch labelled with its local
    /// probability, in the deterministic traversal order.
    pub fn to_graphviz(&self) -> (s: String)
        requires
            self.descendant_count() + 1 <= u64::MAX,
        ensures
            s@ == self.graphviz_text(),
    {
        proof {
            reveal_strlit("digraph {\n_root[label=\"\", shape=\"circle\"];\n");
            reveal_strlit("}");
            reveal_strlit("root");
        }
        let mut out = String::new();
        out.append("digraph {\n_root[label=\"\", shape=\"circle\"];\n");
        proof {
            self.lemma_desc_nonneg();
        }
        let _last = self.graphviz_iter("root", 1, &mut out);
        out.append("}");
        proof {
            assert(out@ =~= self.graphviz_text());
        }
        out
    }

    /// Appends the Graphviz rendering of this node's children to `out`.
    #[verifier::loop_isolation(false)]
    fn graphviz_iter(&self, root: &str, id: u64, out: &mut String) -> (last: u64)
        requires
            id as int + self.descendant_count() <= u64::MAX,
        ensures
            final(out)@ == old(out)@ + self.gv_iter(root@, id as int).0,
            last as int == self.gv_iter(root@, id as int).1,
        decreases *self, 1int, 0int,
    {
        let ghost base = out@;
        let mut cur = id;
        let mut i: usize = 0;
        proof {
            self.lemma_desc_nonneg();
        }
        while i < self.nodes.len()
            invariant
                0 <= i <= self.nodes@.len(),
                out@ == base + self.gv_upto(root@, id as int, i as int).0,
                cur as int == self.gv_upto(root@, id as int, i as int).1,
                cur as int == id + self.desc_upto(i as int),
            decreases self.nodes@.len() - i,
        {
            proof {
                self.lemma_gv_ids_upto(root@, id as int, i as int);
                self.lemma_gv_ids_upto(root@, id as int, i as int + 1);
                self.lemma_desc_upto_nonneg(i as int);
                self.nodes@[i as int].1.lemma_desc_nonneg();
                self.lemma_desc_monotone(i as int + 1, self.nodes@.len() as int);
            }
            let next = self.nodes[i].1.graphviz_sub(root, self.nodes[i].0.text(), cur + 1, out);
            cur = next;
            i = i + 1;
        }
        cur
    }

    /// Prefix node counts grow with the prefix.
    proof fn lemma_desc_monotone(self, k1: int, k2: int)
        requires
            0 <= k1 <= k2 <= self.nodes@.len(),
        ensures
            self.desc_upto(k1) <= self.desc_upto(k2),
        decreases k2 - k1,
    {
        if k1 < k2 {
            self.lemma_desc_monotone(k1, k2 - 1);
            self.nodes@[k2 - 1].1.lemma_desc_nonneg();
        }
    }

    /// Appends this node's Graphviz lines and subtree to `out`.
    fn graphviz_sub(&self, root: &str, card: &str, id: u64, out: &mut String) -> (last: u64)
        requires
            id as int + self.descendant_count() <= u64::MAX,
        ensures
            final(out)@ == old(out)@ + self.gv_sub(root@, card@, id as int).0,
            last as int == self.gv_sub(root@, card@, id as int).1,
        decreases *self, 2int, 0int,
    {
        proof {
            reveal_strlit("_");
            reveal_strlit("->");
            reveal_strlit("[label=\"");
            reveal_strlit("\"];\n");
            reveal_strlit(" (");
            reveal_strlit(")\"];\n");
        }
        let mut name = card.to_owned();
        name.append("_");
        crate::decimal::push_decimal(id, &mut name);
        proof {
            assert(name@ =~= card@ + "_"@ + crate::decimal::dec_rep(id as int));
        }
        out.append("_");
        out.append(root);
        out.append("->");
        out.append("_");
        out.append(name.as_str());
        out.append("[label=\"");
        let ptext = self.probability.to_text();
        out.append(ptext.as_str());
        out.append("\"];\n");
        out.append("_");
        out.append(name.as_str());
        out.append("[label=\"");
        out.append(card);
        out.append(" (");
        let ttext = self.probability_in_tree.to_text();
        out.append(ttext.as_str());
        out.append(")\"];\n");
        let last = self.graphviz_iter(name.as_str(), id, out);
        proof {
            assert(final(out)@ =~= old(out)@ + self.gv_sub(root@, card@, id as int).0);
        }
        last
    }

    /// Two trees agree node for node: same probabilities, same card
    /// labels, same shape.
    pub closed spec fn same_shape(self, other: CardDrawTree) -> bool
        decreases self,
    {
        &&& self.probability@ == other.probability@
        &&& self.probability_in_tree@ == other.probability_in_tree@
        &&& self.nodes@.len() == other.nodes@.len()
        &&& forall|i: int|
            0 <= i < self.nodes@.len() ==> (#[trigger] self.nodes@[i]).0@ == other.nodes@[i].0@
                && self.nodes@[i].1.same_shape(other.nodes@[i].1)
    }

    /// Trees that agree node for node render to identical Graphviz text
    /// and identical tree text.
    proof fn lemma_same_shape_same_text(self, other: CardDrawTree, root: Seq<char>, id: int, ind: Seq<char>)
        requires
            self.same_shape(other),
        ensures
            self.gv_iter(root, id) == other.gv_iter(root, id),
            self.text_at(ind) == other.text_at(ind),
        decreases self, 1int, 0int,
    {
        self.lemma_same_shape_same_text_upto(other, root, id, ind, self.nodes@.len() as int);
    }

    /// The prefix version of [`CardDrawTree::lemma_same_shape_same_text`].
    proof fn lemma_same_shape_same_text_upto(
        self,
        other: CardDrawTree,
        root: Seq<char>,
        id: int,
        ind: Seq<char>,
        k: int,
    )
        requires
            self.same_shape(other),
            0 <= k <= self.nodes@.len(),
        ensures
            self.gv_upto(root, id, k) == other.gv_upto(root, id, k),
            self.text_upto(ind, k) == other.text_upto(ind, k),
        decreases self, 0int, k,
    {
        if k > 0 {
            self.lemma_same_shape_same_text_upto(other, root, id, ind, k - 1);
            let c1 = self.nodes@[k - 1].1;
            let c2 = other.nodes@[k - 1].1;
            let card = self.nodes@[k - 1].0@;
            assert(self.nodes@[k - 1].0@ == other.nodes@[k - 1].0@ && c1.same_shape(c2));
            let prev = self.gv_upto(root, id, k - 1);
            let name = card + "_"@ + crate::decimal::dec_rep(prev.1 + 1);
            c1.lemma_same_shape_same_text(c2, name, prev.1 + 1, ind.push('\t'));
            assert(c1.gv_sub(root, card, prev.1 + 1) == c2.gv_sub(root, card, prev.1 + 1));
            assert(c1.probability_in_tree@ == c2.probability_in_tree@);
            assert(other.nodes@[k - 1].0@ == card);
            assert(self.text_upto(ind, k) == self.text_upto(ind, k - 1) + ind + "* "@ + card
                + " ("@ + crate::probability::frac_text(c1.probability_in_tree@) + ")\n"@
                + c1.text_at(ind.push('\t')));
            assert(other.text_upto(ind, k) == other.text_upto(ind, k - 1) + ind + "* "@ + card
                + " ("@ + crate::probability::frac_text(c2.probability_in_tree@) + ")\n"@
                + c2.text_at(ind.push('\t')));
        }
    }

    /// Two trees built by `without_shrinking` from equal decks with the
    /// same number of draws agree node for node.
    pub proof fn lemma_built_without_shrinking_same_shape(
        t1: CardDrawTree,
        t2: CardDrawTree,
        deck: Seq<(Seq<char>, int)>,
        draws: int,
        local: (int, int),
        parent: (int, int),
    )
        requires
            t1.built_without_shrinking(deck, draws, local, parent),
            t2.built_without_shrinking(deck, draws, local, parent),
        ensures
            t1.same_shape(t2),
        decreases draws,
    {
        let pos = deck_positive(deck);
        if draws > 0 {
            assert forall|i: int| 0 <= i < t1.nodes@.len() implies (#[trigger] t1.nodes@[i]).0@
                == t2.nodes@[i].0@ && t1.nodes@[i].1.same_shape(t2.nodes@[i].1) by {
                assert(t1.children()[i] == (t1.nodes@[i].0@, t1.nodes@[i].1));
                assert(t2.children()[i] == (t2.nodes@[i].0@, t2.nodes@[i].1));
                Self::lemma_built_without_shrinking_same_shape(
                    t1.nodes@[i].1,
                    t2.nodes@[i].1,
                    deck,
                    draws - 1,
                    frac_reduce((pos[i].1, deck_total(deck))),
                    t1.tree_prob(),
                );
            }
        } else {
            assert(t1.children().len() == 0 && t2.children().len() == 0);
            assert(t1.nodes@.len() == 0 && t2.nodes@.len() == 0) by {
                assert(t1.children().len() == t1.nodes@.len());
                assert(t2.children().len() == t2.nodes@.len());
            }
        }
    }

    /// Two trees built by `shrinking` from equal decks with the same
    /// number of draws agree node for node.
    pub proof fn lemma_built_shrinking_same_shape(
        t1: CardDrawTree,
        t2: CardDrawTree,
        deck: Seq<(Seq<char>, int)>,
        draws: int,
        local: (int, int),
        parent: (int, int),
    )
        requires
            t1.built_shrinking(deck, draws, local, parent),
            t2.built_shrinking(deck, draws, local, parent),
        ensures
            t1.same_shape(t2),
        decreases draws,
    {
        let pos = deck_positive(deck);
        if draws > 0 {
            assert forall|i: int| 0 <= i < t1.nodes@.len() implies (#[trigger] t1.nodes@[i]).0@
                == t2.nodes@[i].0@ && t1.nodes@[i].1.same_shape(t2.nodes@[i].1) by {
                assert(t1.children()[i] == (t1.nodes@[i].0@, t1.nodes@[i].1));
                assert(t2.children()[i] == (t2.nodes@[i].0@, t2.nodes@[i].1));
                Self::lemma_built_shrinking_same_shape(
                    t1.nodes@[i].1,
                    t2.nodes@[i].1,
                    Self::deck_after_draw(deck, pos[i].0),
                    draws - 1,
                    frac_reduce((pos[i].1, deck_total(deck))),
                    t1.tree_prob(),
                );
            }
        } else {
            assert(t1.nodes@.len() == 0 && t2.nodes@.len() == 0) by {
                assert(t1.children().len() == t1.nodes@.len());
                assert(t2.children().len() == t2.nodes@.len());
            }
        }
    }

    /// Building a tree twice from equal inputs gives byte-identical
    /// Graphviz output and byte-identical tree text: the rendering is
    /// deterministic.
    pub proof fn lemma_rendering_deterministic(t1: CardDrawTree, t2: CardDrawTree)
        requires
            t1.same_shape(t2),
        ensures
            t1.graphviz_text() == t2.graphviz_text(),
            t1.tree_text() == t2.tree_text(),
    {
        t1.lemma_same_shape_same_text(t2, "root"@, 1, Seq::empty());
    }

    /// Probability is conserved: for any well-formed tree whose root has
    /// absolute probability one, the probabilities of all enumerated paths
    /// sum to exactly one.
    pub proof fn lemma_paths_probability_total(self)
        requires
            self.wf(),
            self.tree_prob() == (1int, 1int),
        ensures
            frac_eq(frac_sum(self.leaf_probs()), (1int, 1int)),
    {
        self.lemma_leaf_sum();
    }
}

/// One unfolding of `pow` for a positive exponent.
proof fn lemma_pow_unfold(b: int, e: nat)
    requires
        e > 0,
    ensures
        pow(b, e) == b * pow(b, (e - 1) as nat),
{
    reveal(vstd::arithmetic::power::pow);
}

/// `pow` of exponent zero is one.
proof fn lemma_pow_zero(b: int)
    ensures
        pow(b, 0) == 1,
{
    reveal(vstd::arithmetic::power::pow);
}

/// The fraction one is already reduced.
proof fn lemma_one_reduce()
    ensures
        frac_reduce(frac_mul((1int, 1int), (1int, 1int))) == (1int, 1int),
{
    lemma_frac_reduce((1int, 1int));
}

/// The denominator budget passed to a child node stays within bounds.
proof fn lemma_budget_step(budget: int, tpd: int, pd: int, total: int, pw1: int)
    requires
        budget >= 1,
        tpd >= 1,
        pd >= 1,
        total >= pd,
        pw1 >= 1,
        tpd <= budget,
        budget * (total * pw1) <= u64::MAX,
    ensures
        tpd * pd <= u64::MAX,
        tpd * pd * pw1 <= u64::MAX,
{
    assert(tpd * pd * pw1 <= budget * (total * pw1)) by (nonlinear_arith)
        requires
            1 <= tpd <= budget,
            1 <= pd <= total,
            pw1 >= 1;
    assert(tpd * pd <= tpd * pd * pw1) by (nonlinear_arith)
        requires
            tpd >= 1,
            pd >= 1,
            pw1 >= 1;
}

/// The recursive budget for a shrunken deck follows from the budget for
/// the full deck.
proof fn lemma_shrink_budget(tpd: int, pd: int, pws: int, pw1: int)
    by (nonlinear_arith)
    requires
        tpd >= 1,
        pd >= 1,
        pws >= 0,
        pws <= pw1,
        tpd * pd * pw1 <= u64::MAX,
    ensures
        tpd * pd * pws <= u64::MAX,
{
}

impl Default for CardDrawTree {
    /// The default tree is the empty tree.
    fn default() -> (t: CardDrawTree)
        ensures
            t.wf(),
            t.children().len() == 0,
            t.tree_prob() == (1int, 1int),
    {
        CardDrawTree::new()
    }
}

/// Copies a slice of cards into a new vector.
fn copy_cards(s: &[Card]) -> (v: Vec<Card>)
    ensures
        v@ =~= s@,
        v@.map_values(|c: Card| c@) == s@.map_values(|c: Card| c@),
{
    let mut v: Vec<Card> = Vec::new();
    let mut i: usize = 0;
    while i < s.len()
        invariant
            0 <= i <= s@.len(),
            v@.len() == i,
            forall|j: int| 0 <= j < i ==> v@[j] == s@[j],
        decreases s@.len() - i,
    {
        let c = s[i].clone();
        v.push(c);
        i = i + 1;
    }
    proof {
        assert(v@ =~= s@);
    }
    v
}

/// The path-denominator bound is at least one.
proof fn lemma_path_den_pos(t: CardDrawTree)
    ensures
        t.path_den() >= 1,
    decreases t, 1int, 0int,
{
    if t.nodes@.len() > 0 {
        lemma_path_den_upto_pos(t, t.nodes@.len() as int);
    }
}

/// The restricted path-denominator bound is at least one.
proof fn lemma_path_den_upto_pos(t: CardDrawTree, k: int)
    ensures
        t.path_den_upto(k) >= 1,
    decreases t, 0int, k,
{
    if k > 0 {
        lemma_path_den_upto_pos(t, k - 1);
    }
}

/// The restricted path-denominator bound only depends on the first `k`
/// children.
proof fn lemma_upto_frame(t1: CardDrawTree, t2: CardDrawTree, k: int)
    requires
        0 <= k <= t1.nodes@.len(),
        k <= t2.nodes@.len(),
        forall|j: int| 0 <= j < k ==> t1.nodes@[j] == t2.nodes@[j],
    ensures
        t1.path_den_upto(k) == t2.path_den_upto(k),
    decreases k,
{
    if k > 0 {
        lemma_upto_frame(t1, t2, k - 1);
        assert(t1.nodes@[k - 1] == t2.nodes@[k - 1]);
    }
}

/// The path-denominator bound covers every single branch.
proof fn lemma_upto_ge(t: CardDrawTree, k: int, j: int)
    requires
        0 <= j < k <= t.nodes@.len(),
    ensures
        t.path_den_upto(k) >= t.nodes@[j].1.probability@.1 * t.nodes@[j].1.path_den(),
    decreases k,
{
    if j < k - 1 {
        lemma_upto_ge(t, k - 1, j);
    }
}

} // verus!
