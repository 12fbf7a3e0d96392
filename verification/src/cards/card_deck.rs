//! A deck of cards: a multiset with per-card multiplicities.

use crate::cards::card::{
    card_lt, lemma_card_lt_irreflexive, lemma_card_lt_total, lemma_card_lt_transitive, Card,
};
use crate::probability::Probability;
use crate::rational::{frac_add, frac_eq, frac_sum, frac_wf};
use vstd::prelude::*;

verus! {

/// A deck of cards.
///
/// The deck maps each card to the number of its copies. A card may be
/// present with a count of zero: it is then observably absent (it has
/// probability zero and is not contained), but the entry remains until it is
/// removed outright.
///
/// Internally the entries are kept strictly sorted by the card order, so
/// every traversal of a deck is deterministic. The view of a deck is the
/// sequence of `(label, count)` pairs in that order.
#[derive(PartialEq, Eq, Debug)]
pub struct CardDeck {
    cards: Vec<(Card, u64)>,
}

impl View for CardDeck {
    type V = Seq<(Seq<char>, int)>;

    closed spec fn view(&self) -> Seq<(Seq<char>, int)> {
        Seq::new(self.cards@.len() as nat, |i: int| (self.cards@[i].0@, self.cards@[i].1 as int))
    }
}

/// The entries are strictly sorted by card label, so each label occurs at
/// most once.
pub open spec fn deck_sorted(s: Seq<(Seq<char>, int)>) -> bool {
    forall|i: int, j: int| 0 <= i < j < s.len() ==> card_lt(s[i].0, s[j].0)
}

/// Every count is non-negative.
pub open spec fn deck_counts_ok(s: Seq<(Seq<char>, int)>) -> bool {
    forall|i: int| 0 <= i < s.len() ==> s[i].1 >= 0
}

/// The number of cards in the deck: the sum of all counts.
pub open spec fn deck_total(s: Seq<(Seq<char>, int)>) -> int
    decreases s.len(),
{
    if s.len() == 0 {
        0
    } else {
        deck_total(s.drop_last()) + s.last().1
    }
}

/// Whether some entry carries the label `k`.
pub open spec fn deck_has_key(s: Seq<(Seq<char>, int)>, k: Seq<char>) -> bool {
    exists|i: int| 0 <= i < s.len() && s[i].0 == k
}

/// The index of the entry labelled `k`, if any.
pub open spec fn deck_index_of(s: Seq<(Seq<char>, int)>, k: Seq<char>) -> int {
    choose|i: int| 0 <= i < s.len() && s[i].0 == k
}

/// The number of copies of the card labelled `k`; zero if absent.
pub open spec fn deck_count_of(s: Seq<(Seq<char>, int)>, k: Seq<char>) -> int {
    if deck_has_key(s, k) {
        s[deck_index_of(s, k)].1
    } else {
        0
    }
}

/// The invariant of a deck: sorted unique entries, non-negative counts, and
/// a total that fits in a machine word.
pub open spec fn deck_wf(s: Seq<(Seq<char>, int)>) -> bool {
    deck_sorted(s) && deck_counts_ok(s) && deck_total(s) <= u64::MAX
}

/// The number of occurrences of `k` in a sequence of labels.
pub open spec fn occurrences(s: Seq<Seq<char>>, k: Seq<char>) -> int
    decreases s.len(),
{
    if s.len() == 0 {
        0
    } else {
        occurrences(s.drop_last(), k) + if s.last() == k {
            1int
        } else {
            0int
        }
    }
}

/// The entries with a positive count, in deck order.
pub open spec fn deck_positive(s: Seq<(Seq<char>, int)>) -> Seq<(Seq<char>, int)> {
    s.filter(|e: (Seq<char>, int)| e.1 > 0)
}

/// In a sorted sequence, labels are unique.
proof fn lemma_deck_key_unique(s: Seq<(Seq<char>, int)>, i: int, j: int)
    requires
        deck_sorted(s),
        0 <= i < s.len(),
        0 <= j < s.len(),
        s[i].0 == s[j].0,
    ensures
        i == j,
{
    if i < j {
        lemma_card_lt_irreflexive(s[i].0);
    }
    if j < i {
        lemma_card_lt_irreflexive(s[i].0);
    }
}

/// In a sorted sequence, the count of a label present at index `i` is the
/// count stored there.
proof fn lemma_deck_count_at(s: Seq<(Seq<char>, int)>, i: int)
    requires
        deck_sorted(s),
        0 <= i < s.len(),
    ensures
        deck_count_of(s, s[i].0) == s[i].1,
        deck_has_key(s, s[i].0),
        deck_index_of(s, s[i].0) == i,
{
    assert(deck_has_key(s, s[i].0));
    let j = deck_index_of(s, s[i].0);
    lemma_deck_key_unique(s, i, j);
}

/// Every entry of the positive part of a sorted deck is an entry of the
/// deck itself, so its label is present with exactly that (positive) count.
pub proof fn lemma_deck_positive_entry(s: Seq<(Seq<char>, int)>, i: int)
    requires
        deck_sorted(s),
        0 <= i < deck_positive(s).len(),
    ensures
        deck_has_key(s, deck_positive(s)[i].0),
        deck_count_of(s, deck_positive(s)[i].0) == deck_positive(s)[i].1,
        deck_positive(s)[i].1 > 0,
    decreases s.len(),
{
    reveal(Seq::filter);
    let f = deck_positive(s);
    let e = f[i];
    assert(s.len() > 0);
    let s1 = s.drop_last();
    assert(deck_sorted(s1)) by {
        assert(forall|j: int| 0 <= j < s1.len() ==> s1[j] == s[j]);
    }
    if s.last().1 > 0 {
        if i < f.len() - 1 {
            assert(deck_positive(s1)[i] == e);
            lemma_deck_positive_entry(s1, i);
            let w = deck_index_of(s1, e.0);
            assert(s[w] == s1[w]);
            lemma_deck_count_at(s, w);
        } else {
            assert(e == s.last());
            lemma_deck_count_at(s, s.len() - 1);
        }
    } else {
        assert(f == deck_positive(s1));
        lemma_deck_positive_entry(s1, i);
        let w = deck_index_of(s1, e.0);
        assert(s[w] == s1[w]);
        lemma_deck_count_at(s, w);
    }
}

/// The total of a deck is non-negative and bounds every single count.
pub proof fn lemma_deck_total_bounds(s: Seq<(Seq<char>, int)>)
    requires
        deck_counts_ok(s),
    ensures
        deck_total(s) >= 0,
        forall|i: int| 0 <= i < s.len() ==> s[i].1 <= deck_total(s),
    decreases s.len(),
{
    if s.len() > 0 {
        assert(deck_counts_ok(s.drop_last())) by {
            assert(forall|i: int|
                0 <= i < s.len() - 1 ==> s.drop_last()[i] == s[i]);
        }
        lemma_deck_total_bounds(s.drop_last());
        assert(forall|i: int| 0 <= i < s.len() - 1 ==> s[i] == s.drop_last()[i]);
    }
}

/// Replacing the entry at `i` changes the total by the difference of the
/// counts.
proof fn lemma_deck_total_update(s: Seq<(Seq<char>, int)>, i: int, e: (Seq<char>, int))
    requires
        0 <= i < s.len(),
    ensures
        deck_total(s.update(i, e)) == deck_total(s) - s[i].1 + e.1,
    decreases s.len(),
{
    let t = s.update(i, e);
    if i == s.len() - 1 {
        assert(t.drop_last() =~= s.drop_last());
    } else {
        assert(t.drop_last() =~= s.drop_last().update(i, e));
        lemma_deck_total_update(s.drop_last(), i, e);
    }
}

/// Inserting an entry adds its count to the total.
proof fn lemma_deck_total_insert(s: Seq<(Seq<char>, int)>, i: int, e: (Seq<char>, int))
    requires
        0 <= i <= s.len(),
    ensures
        deck_total(s.insert(i, e)) == deck_total(s) + e.1,
    decreases s.len(),
{
    let t = s.insert(i, e);
    if i == s.len() {
        assert(t.drop_last() =~= s);
        assert(t.last() == e);
    } else {
        assert(t.drop_last() =~= s.drop_last().insert(i, e));
        assert(t.last() == s.last());
        lemma_deck_total_insert(s.drop_last(), i, e);
    }
}

/// Removing an entry subtracts its count from the total.
proof fn lemma_deck_total_remove(s: Seq<(Seq<char>, int)>, i: int)
    requires
        0 <= i < s.len(),
    ensures
        deck_total(s.remove(i)) == deck_total(s) - s[i].1,
    decreases s.len(),
{
    let t = s.remove(i);
    if i == s.len() - 1 {
        assert(t =~= s.drop_last());
    } else {
        assert(t.drop_last() =~= s.drop_last().remove(i));
        assert(t.last() == s.last());
        lemma_deck_total_remove(s.drop_last(), i);
    }
}

/// A prefix of a deck never exceeds the whole deck's total.
proof fn lemma_deck_total_take_le(s: Seq<(Seq<char>, int)>, i: int)
    requires
        deck_counts_ok(s),
        0 <= i <= s.len(),
    ensures
        deck_total(s.take(i)) <= deck_total(s),
        deck_total(s.take(i)) >= 0,
    decreases s.len() - i,
{
    if i == s.len() {
        assert(s.take(i) =~= s);
        lemma_deck_total_bounds(s);
        assert(deck_counts_ok(s.take(i)));
        lemma_deck_total_bounds(s.take(i));
    } else {
        lemma_deck_total_take_step(s, i);
        lemma_deck_total_take_le(s, i + 1);
        assert(deck_counts_ok(s.take(i))) by {
            assert(forall|j: int| 0 <= j < i ==> s.take(i)[j] == s[j]);
        }
        lemma_deck_total_bounds(s.take(i));
    }
}

/// A prefix of a deck grows entry by entry.
proof fn lemma_deck_total_take_step(s: Seq<(Seq<char>, int)>, i: int)
    requires
        0 <= i < s.len(),
    ensures
        deck_total(s.take(i + 1)) == deck_total(s.take(i)) + s[i].1,
{
    assert(s.take(i + 1).drop_last() =~= s.take(i));
    assert(s.take(i + 1).last() == s[i]);
}

impl Clone for CardDeck {
    /// The clone of a deck has exactly the same entries.
    fn clone(&self) -> (d: CardDeck)
        ensures
            d@ == self@,
    {
        let mut entries: Vec<(Card, u64)> = Vec::new();
        let mut i: usize = 0;
        while i < self.cards.len()
            invariant
                0 <= i <= self.cards@.len(),
                entries@.len() == i,
                forall|j: int| 0 <= j < i ==> entries@[j] == self.cards@[j],
            decreases self.cards@.len() - i,
        {
            let entry = (self.cards[i].0.clone(), self.cards[i].1);
            entries.push(entry);
            i = i + 1;
        }
        let d = CardDeck { cards: entries };
        proof {
            assert(d@ =~= self@);
        }
        d
    }
}

impl Default for CardDeck {
    /// The default deck is empty.
    fn default() -> (d: CardDeck)
        ensures
            d.wf(),
            d@ =~= Seq::<(Seq<char>, int)>::empty(),
    {
        CardDeck::new()
    }
}

impl CardDeck {
    /// The invariant of the deck.
    pub open spec fn wf(self) -> bool {
        deck_wf(self@)
    }

    /// Creates a new empty deck.
    pub fn new() -> (d: CardDeck)
        ensures
            d.wf(),
            d@ =~= Seq::<(Seq<char>, int)>::empty(),
    {
        CardDeck { cards: Vec::new() }
    }

    /// The position of the first entry not below `card`, or the length if
    /// all entries are below it.
    fn lower_bound(&self, card: &Card) -> (i: usize)
        requires
            self.wf(),
        ensures
            0 <= i <= self@.len(),
            forall|j: int| 0 <= j < i ==> card_lt(self@[j].0, card@),
            i < self@.len() ==> !card_lt(self@[i as int].0, card@),
    {
        let mut i: usize = 0;
        while i < self.cards.len()
            invariant
                self.wf(),
                0 <= i <= self@.len(),
                self@.len() == self.cards@.len(),
                forall|j: int| 0 <= j < i ==> card_lt(self@[j].0, card@),
            decreases self.cards.len() - i,
        {
            if !self.cards[i].0.lt(card) {
                return i;
            }
            i = i + 1;
        }
        i
    }

    /// Looks up the index of the entry for `card`, if present.
    fn find(&self, card: &Card) -> (r: Option<usize>)
        requires
            self.wf(),
        ensures
            match r {
                Some(i) => 0 <= i < self@.len() && self@[i as int].0 == card@
                    && deck_has_key(self@, card@),
                None => !deck_has_key(self@, card@),
            },
    {
        let mut i: usize = 0;
        while i < self.cards.len()
            invariant
                self.wf(),
                0 <= i <= self@.len(),
                self@.len() == self.cards@.len(),
                forall|j: int| 0 <= j < i ==> self@[j].0 != card@,
            decreases self.cards.len() - i,
        {
            if self.cards[i].0.same(card) {
                proof {
                    assert(self@[i as int].0 == card@);
                    assert(deck_has_key(self@, card@));
                }
                return Some(i);
            }
            i = i + 1;
        }
        None
    }

    /// Adds the given card once to the deck.
    pub fn add(&mut self, card: Card)
        requires
            old(self).wf(),
            deck_total(old(self)@) + 1 <= u64::MAX,
        ensures
            final(self).wf(),
            deck_count_of(final(self)@, card@) == deck_count_of(old(self)@, card@) + 1,
            forall|k: Seq<char>|
                k != card@ ==> deck_count_of(final(self)@, k) == deck_count_of(old(self)@, k),
            deck_total(final(self)@) == deck_total(old(self)@) + 1,
            forall|k: Seq<char>|
                deck_has_key(final(self)@, k) == (deck_has_key(old(self)@, k) || k == card@),
    {
        self.add_times(card, 1);
    }

    /// Adds the card `n` times to the deck.
    pub fn add_times(&mut self, card: Card, n: u64)
        requires
            old(self).wf(),
            deck_total(old(self)@) + n <= u64::MAX,
        ensures
            final(self).wf(),
            deck_count_of(final(self)@, card@) == deck_count_of(old(self)@, card@) + n,
            forall|k: Seq<char>|
                k != card@ ==> deck_count_of(final(self)@, k) == deck_count_of(old(self)@, k),
            deck_total(final(self)@) == deck_total(old(self)@) + n,
            forall|k: Seq<char>|
                deck_has_key(final(self)@, k) == (deck_has_key(old(self)@, k) || k == card@),
    {
        proof {
            lemma_deck_total_bounds(self@);
        }
        let i = self.lower_bound(&card);
        if i < self.cards.len() && self.cards[i].0.same(&card) {
            let ghost s = self@;
            let c = self.cards[i].1;
            proof {
                lemma_deck_count_at(s, i as int);
            }
            let updated = (self.cards[i].0.clone(), c + n);
            self.cards.set(i, updated);
            proof {
                let t = self@;
                assert(t =~= s.update(i as int, (card@, c + n)));
                lemma_deck_total_update(s, i as int, (card@, c + n));
                Self::lemma_same_keys_counts(s, t, i as int, card@);
            }
        } else {
            let ghost s = self@;
            let ghost i_int = i as int;
            self.cards.insert(i, (card, n));
            proof {
                let t = self@;
                assert(t =~= s.insert(i_int, (card@, n as int)));
                lemma_deck_total_insert(s, i_int, (card@, n as int));
                Self::lemma_insert_keys_counts(s, i_int, card@, n as int);
            }
        }
    }

    /// Removes all appearances of the given card from the deck.
    pub fn remove_all(&mut self, card: &Card)
        requires
            old(self).wf(),
        ensures
            final(self).wf(),
            !deck_has_key(final(self)@, card@),
            deck_count_of(final(self)@, card@) == 0,
            forall|k: Seq<char>|
                k != card@ ==> deck_count_of(final(self)@, k) == deck_count_of(old(self)@, k),
            forall|k: Seq<char>|
                deck_has_key(final(self)@, k) == (deck_has_key(old(self)@, k) && k != card@),
            deck_total(final(self)@) == deck_total(old(self)@) - deck_count_of(
                old(self)@,
                card@,
            ),
    {
        let r = self.find(card);
        match r {
            Some(i) => {
                let ghost s = self@;
                proof {
                    lemma_deck_count_at(s, i as int);
                }
                self.cards.remove(i);
                proof {
                    let t = self@;
                    assert(t =~= s.remove(i as int));
                    lemma_deck_total_remove(s, i as int);
                    Self::lemma_remove_keys_counts(s, i as int);
                    lemma_deck_total_bounds(s);
                }
            },
            None => {},
        }
    }

    /// Removes the card `n` times from the deck.
    ///
    /// If `n` is greater than the card's count, the count is simply set to
    /// zero; nothing goes below zero and nothing fails.
    pub fn remove_times(&mut self, card: Card, n: u64)
        requires
            old(self).wf(),
        ensures
            final(self).wf(),
            deck_count_of(final(self)@, card@) == if deck_count_of(old(self)@, card@) >= n {
                deck_count_of(old(self)@, card@) - n
            } else {
                0int
            },
            forall|k: Seq<char>|
                k != card@ ==> deck_count_of(final(self)@, k) == deck_count_of(old(self)@, k),
            forall|k: Seq<char>|
                deck_has_key(final(self)@, k) == (deck_has_key(old(self)@, k) || k == card@),
            deck_total(final(self)@) == deck_total(old(self)@) - (
            if deck_count_of(old(self)@, card@) >= n {
                n as int
            } else {
                deck_count_of(old(self)@, card@)
            }),
            deck_has_key(old(self)@, card@) ==> final(self)@ == old(self)@.update(
                deck_index_of(old(self)@, card@),
                (
                    card@,
                    if deck_count_of(old(self)@, card@) >= n {
                        deck_count_of(old(self)@, card@) - n
                    } else {
                        0int
                    },
                ),
            ),
    {
        proof {
            lemma_deck_total_bounds(self@);
        }
        let i = self.lower_bound(&card);
        if i < self.cards.len() && self.cards[i].0.same(&card) {
            let ghost s = self@;
            let c = self.cards[i].1;
            proof {
                lemma_deck_count_at(s, i as int);
            }
            let reduced = if c >= n {
                c - n
            } else {
                0
            };
            let updated = (self.cards[i].0.clone(), reduced);
            self.cards.set(i, updated);
            proof {
                let t = self@;
                assert(t =~= s.update(i as int, (card@, reduced as int)));
                lemma_deck_total_update(s, i as int, (card@, reduced as int));
                Self::lemma_same_keys_counts(s, t, i as int, card@);
            }
        } else {
            let ghost s = self@;
            let ghost i_int = i as int;
            self.cards.insert(i, (card, 0));
            proof {
                let t = self@;
                assert(t =~= s.insert(i_int, (card@, 0int)));
                lemma_deck_total_insert(s, i_int, (card@, 0int));
                Self::lemma_insert_keys_counts(s, i_int, card@, 0int);
            }
        }
    }

    /// Sets the count of `card` to `n`, overwriting any earlier count.
    pub fn set_card(&mut self, card: Card, n: u64)
        requires
            old(self).wf(),
            deck_total(old(self)@) - deck_count_of(old(self)@, card@) + n <= u64::MAX,
        ensures
            final(self).wf(),
            deck_count_of(final(self)@, card@) == n,
            forall|k: Seq<char>|
                k != card@ ==> deck_count_of(final(self)@, k) == deck_count_of(old(self)@, k),
            forall|k: Seq<char>|
                deck_has_key(final(self)@, k) == (deck_has_key(old(self)@, k) || k == card@),
            deck_total(final(self)@) == deck_total(old(self)@) - deck_count_of(
                old(self)@,
                card@,
            ) + n,
    {
        proof {
            lemma_deck_total_bounds(self@);
        }
        let i = self.lower_bound(&card);
        if i < self.cards.len() && self.cards[i].0.same(&card) {
            let ghost s = self@;
            proof {
                lemma_deck_count_at(s, i as int);
            }
            let updated = (self.cards[i].0.clone(), n);
            self.cards.set(i, updated);
            proof {
                let t = self@;
                assert(t =~= s.update(i as int, (card@, n as int)));
                lemma_deck_total_update(s, i as int, (card@, n as int));
                Self::lemma_same_keys_counts(s, t, i as int, card@);
            }
        } else {
            let ghost s = self@;
            let ghost i_int = i as int;
            self.cards.insert(i, (card, n));
            proof {
                let t = self@;
                assert(t =~= s.insert(i_int, (card@, n as int)));
                lemma_deck_total_insert(s, i_int, (card@, n as int));
                Self::lemma_insert_keys_counts(s, i_int, card@, n as int);
            }
        }
    }

    /// Returns `true` if the deck has no entries at all.
    pub fn is_empty(&self) -> (r: bool)
        ensures
            r == (self@.len() == 0),
    {
        self.cards.len() == 0
    }

    /// Returns the number of cards in the deck: the sum of all counts.
    pub fn size(&self) -> (total: u64)
        requires
            self.wf(),
        ensures
            total as int == deck_total(self@),
    {
        let ghost s = self@;
        let mut total: u64 = 0;
        let mut i: usize = 0;
        proof {
            assert(s.take(0) =~= Seq::<(Seq<char>, int)>::empty());
        }
        while i < self.cards.len()
            invariant
                self.wf(),
                s == self@,
                0 <= i <= self.cards@.len(),
                s.len() == self.cards@.len(),
                total as int == deck_total(s.take(i as int)),
            decreases self.cards@.len() - i,
        {
            proof {
                lemma_deck_total_take_step(s, i as int);
                lemma_deck_total_take_le(s, i as int + 1);
            }
            total = total + self.cards[i].1;
            i = i + 1;
        }
        proof {
            assert(s.take(s.len() as int) =~= s);
        }
        total
    }

    /// Checks the number of copies of `card` in the deck.
    pub fn count(&self, card: &Card) -> (c: u64)
        requires
            self.wf(),
        ensures
            c as int == deck_count_of(self@, card@),
    {
        let r = self.find(card);
        match r {
            Some(i) => {
                proof {
                    lemma_deck_count_at(self@, i as int);
                }
                self.cards[i].1
            },
            None => 0,
        }
    }

    /// Checks whether the card is contained at least once in the deck.
    pub fn contains(&self, card: &Card) -> (r: bool)
        requires
            self.wf(),
        ensures
            r == (deck_count_of(self@, card@) > 0),
    {
        self.count(card) > 0
    }

    /// Creates a deck from a list of cards; each occurrence of a card adds
    /// one copy of it.
    pub fn from_cards(cards: Vec<Card>) -> (d: CardDeck)
        requires
            cards@.len() <= u64::MAX,
        ensures
            d.wf(),
            deck_total(d@) == cards@.len(),
            forall|k: Seq<char>|
                deck_count_of(d@, k) == occurrences(cards@.map_values(|c: Card| c@), k),
            forall|k: Seq<char>|
                deck_has_key(d@, k) == (occurrences(cards@.map_values(|c: Card| c@), k) > 0),
    {
        let ghost labels = cards@.map_values(|c: Card| c@);
        let mut d = CardDeck::new();
        let mut i: usize = 0;
        proof {
            assert(labels.take(0) =~= Seq::<Seq<char>>::empty());
            Self::lemma_occurrences_nonneg(labels);
        }
        while i < cards.len()
            invariant
                d.wf(),
                0 <= i <= cards@.len(),
                cards@.len() <= u64::MAX,
                labels == cards@.map_values(|c: Card| c@),
                deck_total(d@) == i,
                forall|k: Seq<char>|
                    deck_count_of(d@, k) == occurrences(labels.take(i as int), k),
                forall|k: Seq<char>|
                    deck_has_key(d@, k) == (occurrences(labels.take(i as int), k) > 0),
            decreases cards@.len() - i,
        {
            let card = cards[i].clone();
            proof {
                assert(labels.take(i as int + 1).drop_last() =~= labels.take(i as int));
                assert(labels.take(i as int + 1).last() == labels[i as int]);
                assert(labels[i as int] == card@);
                Self::lemma_occurrences_nonneg(labels.take(i as int));
            }
            d.add(card);
            i = i + 1;
        }
        proof {
            assert(labels.take(labels.len() as int) =~= labels);
        }
        d
    }

    /// Occurrence counts are never negative.
    proof fn lemma_occurrences_nonneg(s: Seq<Seq<char>>)
        ensures
            forall|k: Seq<char>| occurrences(s, k) >= 0,
        decreases s.len(),
    {
        assert forall|k: Seq<char>| occurrences(s, k) >= 0 by {
            if s.len() > 0 {
                Self::lemma_occurrences_nonneg(s.drop_last());
                assert(occurrences(s.drop_last(), k) >= 0);
            }
        }
    }

    /// Draws one copy of `card` from the deck and returns the remaining
    /// deck as a **new** value; the original deck is unchanged.
    pub fn draw(&self, card: Card) -> (d: CardDeck)
        requires
            self.wf(),
        ensures
            d.wf(),
            deck_count_of(d@, card@) == if deck_count_of(self@, card@) >= 1 {
                deck_count_of(self@, card@) - 1
            } else {
                0int
            },
            forall|k: Seq<char>|
                k != card@ ==> deck_count_of(d@, k) == deck_count_of(self@, k),
            deck_total(d@) == deck_total(self@) - (if deck_count_of(self@, card@) >= 1 {
                1int
            } else {
                0int
            }),
            deck_has_key(self@, card@) ==> d@ == self@.update(
                deck_index_of(self@, card@),
                (
                    card@,
                    if deck_count_of(self@, card@) >= 1 {
                        deck_count_of(self@, card@) - 1
                    } else {
                        0int
                    },
                ),
            ),
    {
        let mut d = self.clone();
        d.remove_times(card, 1);
        d
    }

    /// Returns the probability of drawing a card equal to `card` with one
    /// draw: its count divided by the deck size, and the zero probability
    /// for a card that is absent or for an empty deck.
    pub fn probability(&self, card: &Card) -> (p: Probability)
        requires
            self.wf(),
        ensures
            p.wf(),
            deck_total(self@) > 0 ==> frac_eq(
                p@,
                (deck_count_of(self@, card@), deck_total(self@)),
            ),
            deck_total(self@) == 0 ==> p@ == (0int, 1int),
            deck_count_of(self@, card@) == 0 ==> p@ == (0int, 1int),
    {
        proof {
            lemma_deck_total_bounds(self@);
        }
        let c = self.count(card);
        let total = self.size();
        if total == 0 {
            Probability::zero()
        } else {
            proof {
                if deck_has_key(self@, card@) {
                    let w = deck_index_of(self@, card@);
                    assert(self@[w].1 <= deck_total(self@));
                }
                crate::rational::lemma_frac_reduce(
                    (deck_count_of(self@, card@), deck_total(self@)),
                );
            }
            Probability::new(c, total)
        }
    }

    /// Returns every card with a strictly positive count, in deck order,
    /// together with its probability of being drawn.
    ///
    /// All returned probabilities are strictly positive, and for a
    /// non-empty deck they sum to exactly one.
    pub fn probabilities(&self) -> (r: Vec<(Card, Probability)>)
        requires
            self.wf(),
        ensures
            r@.len() == deck_positive(self@).len(),
            forall|i: int|
                0 <= i < r@.len() ==> {
                    &&& (#[trigger] r@[i]).0@ == deck_positive(self@)[i].0
                    &&& r@[i].1.wf()
                    &&& r@[i].1@.0 > 0
                    &&& r@[i].1@.1 <= deck_total(self@)
                    &&& deck_total(self@) % r@[i].1@.1 == 0
                    &&& r@[i].1@ == crate::rational::frac_reduce(
                        (deck_positive(self@)[i].1, deck_total(self@)),
                    )
                    &&& frac_eq(r@[i].1@, (deck_positive(self@)[i].1, deck_total(self@)))
                },
            forall|i: int, j: int|
                0 <= i < j < r@.len() ==> card_lt((#[trigger] r@[i]).0@, (#[trigger] r@[j]).0@),
            deck_total(self@) > 0 ==> frac_eq(
                frac_sum(r@.map_values(|e: (Card, Probability)| e.1@)),
                (1int, 1int),
            ),
    {
        let ghost s = self@;
        let total = self.size();
        let mut r: Vec<(Card, Probability)> = Vec::new();
        let mut i: usize = 0;
        proof {
            assert(s.take(0) =~= Seq::<(Seq<char>, int)>::empty());
            reveal(Seq::filter);
            assert(r@.map_values(|e: (Card, Probability)| e.1@)
                =~= Seq::<(int, int)>::empty());
        }
        while i < self.cards.len()
            invariant
                self.wf(),
                s == self@,
                total as int == deck_total(s),
                0 <= i <= self.cards@.len(),
                s.len() == self.cards@.len(),
                r@.len() == deck_positive(s.take(i as int)).len(),
                forall|j: int|
                    0 <= j < r@.len() ==> {
                        &&& (#[trigger] r@[j]).0@ == deck_positive(s.take(i as int))[j].0
                        &&& r@[j].1.wf()
                        &&& r@[j].1@.0 > 0
                        &&& r@[j].1@.1 <= deck_total(s)
                        &&& deck_total(s) % r@[j].1@.1 == 0
                        &&& r@[j].1@ == crate::rational::frac_reduce(
                            (deck_positive(s.take(i as int))[j].1, deck_total(s)),
                        )
                        &&& frac_eq(r@[j].1@, (deck_positive(s.take(i as int))[j].1, deck_total(s)))
                    },
                forall|j: int|
                    0 <= j < r@.len() ==> exists|idx: int|
                        0 <= idx < i && (#[trigger] r@[j]).0@ == s[idx].0,
                forall|j1: int, j2: int|
                    0 <= j1 < j2 < r@.len() ==> card_lt(
                        (#[trigger] r@[j1]).0@,
                        (#[trigger] r@[j2]).0@,
                    ),
                frac_wf(frac_sum(r@.map_values(|e: (Card, Probability)| e.1@))),
                deck_total(s) > 0 ==> frac_eq(
                    frac_sum(r@.map_values(|e: (Card, Probability)| e.1@)),
                    (deck_total(s.take(i as int)), deck_total(s)),
                ),
            decreases self.cards@.len() - i,
        {
            let ghost prefix = s.take(i as int);
            let ghost fracs = r@.map_values(|e: (Card, Probability)| e.1@);
            proof {
                reveal(Seq::filter);
                assert(s.take(i as int + 1).drop_last() =~= prefix);
                assert(s.take(i as int + 1).last() == s[i as int]);
                lemma_deck_total_take_step(s, i as int);
                lemma_deck_total_take_le(s, i as int + 1);
                lemma_deck_total_bounds(s);
            }
            let c = self.cards[i].1;
            if c > 0 {
                proof {
                    crate::rational::lemma_frac_reduce((c as int, deck_total(s)));
                }
                let p = Probability::new(c, total);
                let entry = (self.cards[i].0.clone(), p);
                r.push(entry);
                proof {
                    assert(r@.map_values(|e: (Card, Probability)| e.1@) =~= fracs.push(p@));
                    assert(deck_positive(s.take(i as int + 1)) =~= deck_positive(prefix).push(
                        (s[i as int].0, s[i as int].1),
                    ));
                    assert(fracs.push(p@).drop_last() =~= fracs);
                    Self::lemma_sum_step(
                        frac_sum(fracs),
                        p@,
                        deck_total(prefix),
                        c as int,
                        deck_total(s),
                    );
                }
            } else {
                proof {
                    assert(deck_positive(s.take(i as int + 1)) =~= deck_positive(prefix));
                }
            }
            i = i + 1;
        }
        proof {
            assert(s.take(s.len() as int) =~= s);
            if deck_total(s) > 0 {
                assert(frac_eq((deck_total(s), deck_total(s)), (1int, 1int)))
                    by (nonlinear_arith);
                crate::rational::lemma_frac_eq_transitive(
                    frac_sum(r@.map_values(|e: (Card, Probability)| e.1@)),
                    (deck_total(s), deck_total(s)),
                    (1int, 1int),
                );
            }
        }
        r
    }

    /// Adding a fraction equal to `c / total` to a running sum equal to
    /// `p / total` yields a sum equal to `(p + c) / total`.
    proof fn lemma_sum_step(acc: (int, int), elem: (int, int), p: int, c: int, total: int)
        by (nonlinear_arith)
        requires
            frac_wf(acc),
            frac_wf(elem),
            total > 0,
            frac_eq(acc, (p, total)),
            frac_eq(elem, (c, total)),
        ensures
            frac_eq(frac_add(acc, elem), (p + c, total)),
            frac_wf(frac_add(acc, elem)),
    {
    }

    /// After removing the entry at `i`, its label is gone and all other
    /// labels are unchanged.
    proof fn lemma_remove_keys_counts(s: Seq<(Seq<char>, int)>, i: int)
        requires
            deck_sorted(s),
            0 <= i < s.len(),
        ensures
            ({
                let t = s.remove(i);
                &&& deck_sorted(t)
                &&& !deck_has_key(t, s[i].0)
                &&& deck_count_of(t, s[i].0) == 0
                &&& forall|key: Seq<char>|
                    key != s[i].0 ==> deck_count_of(t, key) == deck_count_of(s, key)
                &&& forall|key: Seq<char>|
                    deck_has_key(t, key) == (deck_has_key(s, key) && key != s[i].0)
            }),
    {
        let t = s.remove(i);
        let k = s[i].0;
        assert(forall|j: int| 0 <= j < i ==> t[j] == s[j]);
        assert(forall|j: int| i <= j < t.len() ==> t[j] == s[j + 1]);
        assert(deck_sorted(t));
        assert(!deck_has_key(t, k)) by {
            if deck_has_key(t, k) {
                let w = deck_index_of(t, k);
                if w < i {
                    lemma_deck_key_unique(s, w, i);
                } else {
                    lemma_deck_key_unique(s, w + 1, i);
                }
            }
        }
        assert forall|key: Seq<char>|
            deck_has_key(t, key) == (deck_has_key(s, key) && key != k) by {
            if deck_has_key(s, key) && key != k {
                let w = deck_index_of(s, key);
                if w < i {
                    assert(t[w].0 == key);
                } else {
                    assert(w > i);
                    assert(t[w - 1].0 == key);
                }
            }
            if deck_has_key(t, key) {
                let w = deck_index_of(t, key);
                if w < i {
                    assert(s[w].0 == key);
                } else {
                    assert(s[w + 1].0 == key);
                }
            }
        }
        assert forall|key: Seq<char>| key != k implies deck_count_of(t, key) == deck_count_of(
            s,
            key,
        ) by {
            if deck_has_key(s, key) {
                let w = deck_index_of(s, key);
                lemma_deck_count_at(s, w);
                if w < i {
                    lemma_deck_count_at(t, w);
                } else {
                    lemma_deck_key_unique(s, w, w);
                    assert(w > i);
                    assert(t[w - 1].0 == key);
                    lemma_deck_count_at(t, w - 1);
                }
            }
        }
    }

    /// After replacing the count at `i` (same label), counts and keys of
    /// other labels are unchanged.
    proof fn lemma_same_keys_counts(
        s: Seq<(Seq<char>, int)>,
        t: Seq<(Seq<char>, int)>,
        i: int,
        k: Seq<char>,
    )
        requires
            deck_sorted(s),
            0 <= i < s.len(),
            s[i].0 == k,
            t.len() == s.len(),
            t[i].0 == k,
            forall|j: int| 0 <= j < s.len() && j != i ==> t[j] == s[j],
        ensures
            deck_sorted(t),
            deck_count_of(t, k) == t[i].1,
            forall|key: Seq<char>| key != k ==> deck_count_of(t, key) == deck_count_of(s, key),
            forall|key: Seq<char>| deck_has_key(t, key) == deck_has_key(s, key),
    {
        assert(forall|a: int| 0 <= a < t.len() ==> #[trigger] t[a].0 == s[a].0);
        assert(deck_sorted(t)) by {
            assert(forall|a: int, b: int|
                0 <= a < b < t.len() ==> card_lt(t[a].0, t[b].0) == card_lt(s[a].0, s[b].0));
        }
        lemma_deck_count_at(t, i);
        assert forall|key: Seq<char>| deck_has_key(t, key) == deck_has_key(s, key) by {
            if deck_has_key(s, key) {
                let w = deck_index_of(s, key);
                assert(t[w].0 == key);
            }
            if deck_has_key(t, key) {
                let w = deck_index_of(t, key);
                assert(s[w].0 == key);
            }
        }
        assert forall|key: Seq<char>| key != k implies deck_count_of(t, key) == deck_count_of(
            s,
            key,
        ) by {
            if deck_has_key(s, key) {
                let w = deck_index_of(s, key);
                assert(w != i);
                lemma_deck_count_at(s, w);
                lemma_deck_count_at(t, w);
            }
        }
    }

    /// After inserting a fresh entry at the right place, the sequence is
    /// still sorted, the new label has the inserted count, and other labels
    /// are unchanged.
    proof fn lemma_insert_keys_counts(s: Seq<(Seq<char>, int)>, i: int, k: Seq<char>, c: int)
        requires
            deck_sorted(s),
            0 <= i <= s.len(),
            forall|j: int| 0 <= j < i ==> card_lt(s[j].0, k),
            i < s.len() ==> !card_lt(s[i].0, k) && s[i].0 != k,
        ensures
            !deck_has_key(s, k),
            ({
                let t = s.insert(i, (k, c));
                &&& deck_sorted(t)
                &&& deck_count_of(t, k) == c
                &&& forall|key: Seq<char>|
                    key != k ==> deck_count_of(t, key) == deck_count_of(s, key)
                &&& forall|key: Seq<char>|
                    deck_has_key(t, key) == (deck_has_key(s, key) || key == k)
            }),
    {
        let t = s.insert(i, (k, c));
        // Entries after the insertion point are above the new label.
        assert forall|j: int| i <= j < s.len() implies card_lt(k, s[j].0) by {
            lemma_card_lt_total(s[i].0, k);
            if j > i {
                lemma_card_lt_transitive(k, s[i].0, s[j].0);
            }
        }
        assert(!deck_has_key(s, k)) by {
            if deck_has_key(s, k) {
                let w = deck_index_of(s, k);
                lemma_card_lt_irreflexive(k);
            }
        }
        assert(deck_sorted(t)) by {
            assert(forall|j: int| 0 <= j < i ==> t[j] == s[j]);
            assert(t[i] == (k, c));
            assert(forall|j: int| i < j < t.len() ==> t[j] == s[j - 1]);
        }
        lemma_deck_count_at(t, i);
        assert forall|key: Seq<char>|
            deck_has_key(t, key) == (deck_has_key(s, key) || key == k) by {
            if deck_has_key(s, key) {
                let w = deck_index_of(s, key);
                if w < i {
                    assert(t[w].0 == key);
                } else {
                    assert(t[w + 1].0 == key);
                }
            }
            if deck_has_key(t, key) && key != k {
                let w = deck_index_of(t, key);
                if w < i {
                    assert(s[w].0 == key);
                } else {
                    assert(w != i);
                    assert(s[w - 1].0 == key);
                }
            }
        }
        assert forall|key: Seq<char>| key != k implies deck_count_of(t, key) == deck_count_of(
            s,
            key,
        ) by {
            if deck_has_key(s, key) {
                let w = deck_index_of(s, key);
                lemma_deck_count_at(s, w);
                if w < i {
                    lemma_deck_count_at(t, w);
                } else {
                    lemma_deck_count_at(t, w + 1);
                }
            }
        }
    }
}

} // verus!
