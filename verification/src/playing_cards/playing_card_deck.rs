//! A builder for decks of standard playing cards.

use crate::cards::card::Card;
use crate::cards::card_deck::{deck_total, CardDeck};
use crate::playing_cards::playing_card::PlayingCard;
use crate::playing_cards::playing_card_suit::{suit_char, suit_rank, PlayingCardSuit};
use crate::playing_cards::playing_card_value::{value_rank, value_text, PlayingCardValue};
use vstd::prelude::*;

verus! {

/// A builder for quickly creating decks of playing cards: a set of values,
/// a set of suits, and a per-card multiplicity. The resulting deck holds
/// one card per value/suit pair, `count` times.
///
/// Values and suits are kept sorted in their standard order, so the
/// resulting deck and all renderings are deterministic.
#[derive(PartialEq, Eq, Hash, Debug)]
pub struct PlayingCardDeck {
    values: Vec<PlayingCardValue>,
    suits: Vec<PlayingCardSuit>,
    count: u64,
}

/// Values strictly sorted in the standard order.
pub open spec fn values_sorted(s: Seq<PlayingCardValue>) -> bool {
    forall|i: int, j: int|
        0 <= i < j < s.len() ==> value_rank(s[i]) < value_rank(s[j])
}

/// Suits strictly sorted in the standard order.
pub open spec fn suits_sorted(s: Seq<PlayingCardSuit>) -> bool {
    forall|i: int, j: int|
        0 <= i < j < s.len() ==> suit_rank(s[i]) < suit_rank(s[j])
}

/// Equal ranks mean equal values.
proof fn lemma_value_rank_injective(a: PlayingCardValue, b: PlayingCardValue)
    ensures
        value_rank(a) == value_rank(b) ==> a == b,
{
}

/// Equal ranks mean equal suits.
proof fn lemma_suit_rank_injective(a: PlayingCardSuit, b: PlayingCardSuit)
    ensures
        suit_rank(a) == suit_rank(b) ==> a == b,
{
}

impl PlayingCardDeck {
    /// The invariant of the builder: both sets are strictly sorted.
    pub open spec fn wf(self) -> bool {
        values_sorted(self.spec_values()) && suits_sorted(self.spec_suits())
    }

    /// The chosen values, in order.
    pub closed spec fn spec_values(self) -> Seq<PlayingCardValue> {
        self.values@
    }

    /// The chosen suits, in order.
    pub closed spec fn spec_suits(self) -> Seq<PlayingCardSuit> {
        self.suits@
    }

    /// The multiplicity of each card.
    pub closed spec fn spec_count(self) -> int {
        self.count as int
    }

    /// Constructs a new empty deck builder with multiplicity one.
    pub fn new() -> (d: PlayingCardDeck)
        ensures
            d.wf(),
            d.spec_values() =~= Seq::<PlayingCardValue>::empty(),
            d.spec_suits() =~= Seq::<PlayingCardSuit>::empty(),
            d.spec_count() == 1,
    {
        PlayingCardDeck { values: Vec::new(), suits: Vec::new(), count: 1 }
    }

    /// Sets the values: afterwards the builder holds exactly the distinct
    /// values of the given list.
    pub fn set_values(self, values: Vec<PlayingCardValue>) -> (d: PlayingCardDeck)
        requires
            self.wf(),
        ensures
            d.wf(),
            forall|v: PlayingCardValue| #[trigger] d.spec_values().contains(v) <==> values@.contains(v),
            d.spec_suits() == self.spec_suits(),
            d.spec_count() == self.spec_count(),
    {
        let mut fresh: Vec<PlayingCardValue> = Vec::new();
        let mut i: usize = 0;
        while i < values.len()
            invariant
                0 <= i <= values@.len(),
                values_sorted(fresh@),
                forall|v: PlayingCardValue|
                    #[trigger] fresh@.contains(v) <==> values@.take(i as int).contains(v),
            decreases values@.len() - i,
        {
            let v = values[i];
            insert_value(&mut fresh, v);
            proof {
                assert(values@.take(i as int + 1).drop_last() =~= values@.take(i as int));
                assert(values@.take(i as int + 1).last() == values@[i as int]);
                assert forall|w: PlayingCardValue|
                    #[trigger] fresh@.contains(w) <==> values@.take(i as int + 1).contains(w) by {
                    if values@.take(i as int + 1).contains(w) {
                        let idx = choose|idx: int|
                            #![trigger values@.take(i as int + 1)[idx]]
                            0 <= idx < values@.take(i as int + 1).len() && values@.take(
                                i as int + 1,
                            )[idx] == w;
                        if idx < i {
                            assert(values@.take(i as int)[idx] == w);
                        }
                    }
                }
            }
            i = i + 1;
        }
        proof {
            assert(values@.take(values@.len() as int) =~= values@);
        }
        PlayingCardDeck { values: fresh, suits: self.suits, count: self.count }
    }

    /// Sets the suits: afterwards the builder holds exactly the distinct
    /// suits of the given list.
    pub fn set_suits(self, suits: Vec<PlayingCardSuit>) -> (d: PlayingCardDeck)
        requires
            self.wf(),
        ensures
            d.wf(),
            forall|s: PlayingCardSuit| #[trigger] d.spec_suits().contains(s) <==> suits@.contains(s),
            d.spec_values() == self.spec_values(),
            d.spec_count() == self.spec_count(),
    {
        let mut fresh: Vec<PlayingCardSuit> = Vec::new();
        let mut i: usize = 0;
        while i < suits.len()
            invariant
                0 <= i <= suits@.len(),
                suits_sorted(fresh@),
                forall|s: PlayingCardSuit|
                    #[trigger] fresh@.contains(s) <==> suits@.take(i as int).contains(s),
            decreases suits@.len() - i,
        {
            let s = suits[i];
            insert_suit(&mut fresh, s);
            proof {
                assert(suits@.take(i as int + 1).drop_last() =~= suits@.take(i as int));
                assert(suits@.take(i as int + 1).last() == suits@[i as int]);
                assert forall|w: PlayingCardSuit|
                    #[trigger] fresh@.contains(w) <==> suits@.take(i as int + 1).contains(w) by {
                    if suits@.take(i as int + 1).contains(w) {
                        let idx = choose|idx: int|
                            #![trigger suits@.take(i as int + 1)[idx]]
                            0 <= idx < suits@.take(i as int + 1).len() && suits@.take(
                                i as int + 1,
                            )[idx] == w;
                        if idx < i {
                            assert(suits@.take(i as int)[idx] == w);
                        }
                    }
                }
            }
            i = i + 1;
        }
        proof {
            assert(suits@.take(suits@.len() as int) =~= suits@);
        }
        PlayingCardDeck { values: self.values, suits: fresh, count: self.count }
    }

    /// Sets the value range, both ends inclusive.
    pub fn value_range(self, from: PlayingCardValue, to: PlayingCardValue) -> (d: PlayingCardDeck)
        requires
            self.wf(),
            value_rank(from) <= value_rank(to),
        ensures
            d.wf(),
            forall|v: PlayingCardValue|
                #[trigger] d.spec_values().contains(v) <==> value_rank(from) <= value_rank(v)
                    <= value_rank(to),
            d.spec_suits() == self.spec_suits(),
            d.spec_count() == self.spec_count(),
    {
        let all = every_value();
        let mut fresh: Vec<PlayingCardValue> = Vec::new();
        let lo = from.rank();
        let hi = to.rank();
        let mut i: usize = 0;
        while i < all.len()
            invariant
                0 <= i <= all@.len(),
                all@.len() == 13,
                forall|j: int| 0 <= j < 13 ==> value_rank(#[trigger] all@[j]) == j,
                lo as int == value_rank(from),
                hi as int == value_rank(to),
                values_sorted(fresh@),
                forall|v: PlayingCardValue|
                    #[trigger] fresh@.contains(v) <==> (lo as int <= value_rank(v) <= hi as int
                        && value_rank(v) < i),
            decreases all@.len() - i,
        {
            let v = all[i];
            let r = v.rank();
            if lo <= r && r <= hi {
                let ghost old_fresh = fresh@;
                fresh.push(v);
                proof {
                    assert forall|w: PlayingCardValue|
                        #[trigger] fresh@.contains(w) <==> (lo as int <= value_rank(w)
                            <= hi as int && value_rank(w) < i + 1) by {
                        if fresh@.contains(w) {
                            let idx = choose|idx: int| #![auto]
                                0 <= idx < fresh@.len() && fresh@[idx] == w;
                            if idx < old_fresh.len() {
                                assert(old_fresh.contains(w));
                            } else {
                                lemma_value_rank_injective(w, v);
                            }
                        }
                        if lo as int <= value_rank(w) <= hi as int && value_rank(w) < i + 1 {
                            if value_rank(w) < i {
                                assert(old_fresh.contains(w));
                                let idx = choose|idx: int| #![auto]
                                    0 <= idx < old_fresh.len() && old_fresh[idx] == w;
                                assert(fresh@[idx] == w);
                            } else {
                                assert(value_rank(all@[i as int]) == i);
                                lemma_value_rank_injective(w, v);
                                assert(w == v);
                                assert(fresh@[fresh@.len() - 1] == w);
                            }
                        }
                    }
                    assert(values_sorted(fresh@)) by {
                        assert(forall|j: int|
                            0 <= j < old_fresh.len() ==> old_fresh.contains(
                                #[trigger] old_fresh[j],
                            ));
                    }
                }
            } else {
                proof {
                    assert forall|w: PlayingCardValue|
                        #[trigger] fresh@.contains(w) <==> (lo as int <= value_rank(w)
                            <= hi as int && value_rank(w) < i + 1) by {
                        lemma_value_rank_injective(w, v);
                    }
                }
            }
            i = i + 1;
        }
        proof {
            assert forall|v: PlayingCardValue|
                #[trigger] fresh@.contains(v) <==> (value_rank(from) <= value_rank(v)
                    <= value_rank(to)) by {
                assert(value_rank(v) < 13);
            }
        }
        PlayingCardDeck { values: fresh, suits: self.suits, count: self.count }
    }

    /// Includes every value.
    pub fn all_values(self) -> (d: PlayingCardDeck)
        requires
            self.wf(),
        ensures
            d.wf(),
            forall|v: PlayingCardValue| #[trigger] d.spec_values().contains(v),
            d.spec_suits() == self.spec_suits(),
            d.spec_count() == self.spec_count(),
    {
        let all = every_value();
        proof {
            assert forall|v: PlayingCardValue| all@.contains(v) by {
                assert(all@[value_rank(v)] == v);
            }
        }
        PlayingCardDeck { values: all, suits: self.suits, count: self.count }
    }

    /// Includes every suit.
    pub fn all_suits(self) -> (d: PlayingCardDeck)
        requires
            self.wf(),
        ensures
            d.wf(),
            forall|s: PlayingCardSuit| #[trigger] d.spec_suits().contains(s),
            d.spec_values() == self.spec_values(),
            d.spec_count() == self.spec_count(),
    {
        let all = every_suit();
        proof {
            assert forall|s: PlayingCardSuit| all@.contains(s) by {
                assert(all@[suit_rank(s)] == s);
            }
        }
        PlayingCardDeck { values: self.values, suits: all, count: self.count }
    }

    /// Sets the multiplicity of each individual card.
    pub fn set_count(self, count: u64) -> (d: PlayingCardDeck)
        requires
            self.wf(),
        ensures
            d.wf(),
            d.spec_count() == count,
            d.spec_values() == self.spec_values(),
            d.spec_suits() == self.spec_suits(),
    {
        PlayingCardDeck { values: self.values, suits: self.suits, count }
    }

    /// Converts the builder to a [`CardDeck`] holding one card per
    /// value/suit pair, `count` times each.
    pub fn to_deck(&self) -> (d: CardDeck)
        requires
            self.wf(),
            self.spec_values().len() * self.spec_suits().len() * self.spec_count() <= u64::MAX,
        ensures
            d.wf(),
            deck_total(d@) == self.spec_values().len() * self.spec_suits().len()
                * self.spec_count(),
    {
        let ghost v_len = self.spec_values().len() as int;
        let ghost s_len = self.spec_suits().len() as int;
        let ghost cnt = self.spec_count();
        let mut d = CardDeck::new();
        proof {
            assert(deck_total(d@) == 0);
            assert(0 * s_len * cnt == 0) by (nonlinear_arith);
        }
        let mut i: usize = 0;
        while i < self.values.len()
            invariant
                self.wf(),
                v_len == self.values@.len(),
                s_len == self.suits@.len(),
                cnt == self.count as int,
                v_len * s_len * cnt <= u64::MAX,
                0 <= i <= v_len,
                d.wf(),
                deck_total(d@) == i * s_len * cnt,
            decreases self.values@.len() - i,
        {
            let mut j: usize = 0;
            while j < self.suits.len()
                invariant
                    self.wf(),
                    v_len == self.values@.len(),
                    s_len == self.suits@.len(),
                    cnt == self.count as int,
                    v_len * s_len * cnt <= u64::MAX,
                    0 <= i < v_len,
                    0 <= j <= s_len,
                    d.wf(),
                    deck_total(d@) == i * s_len * cnt + j * cnt,
                decreases self.suits@.len() - j,
            {
                proof {
                    lemma_cell_budget(i as int, j as int, v_len, s_len, cnt);
                }
                let card = PlayingCard::new(self.values[i], self.suits[j]);
                let text = card.to_text();
                let deck_card = Card::new(text.as_str());
                d.add_times(deck_card, self.count);
                proof {
                    assert(deck_total(d@) == i as int * s_len * cnt + (j as int + 1) * cnt)
                        by (nonlinear_arith)
                        requires
                            deck_total(d@) == i as int * s_len * cnt + j as int * cnt + cnt;
                }
                j = j + 1;
            }
            proof {
                assert((i as int + 1) * s_len * cnt == i as int * s_len * cnt + s_len * cnt)
                    by (nonlinear_arith);
            }
            i = i + 1;
        }
        d
    }

    /// Returns `true` if the built deck would contain no cards.
    pub fn is_empty(&self) -> (r: bool)
        ensures
            r == (self.spec_count() == 0 || self.spec_suits().len() == 0 || self.spec_values().len()
                == 0),
    {
        self.count == 0 || self.suits.len() == 0 || self.values.len() == 0
    }
}

/// The text of one card cell: its value directly followed by its suit.
pub open spec fn cell_text(v: PlayingCardValue, s: PlayingCardSuit) -> Seq<char> {
    value_text(v) + seq![suit_char(s)]
}

/// One row of cells: every value with the same suit, separated by spaces.
pub open spec fn row_text(values: Seq<PlayingCardValue>, s: PlayingCardSuit) -> Seq<char>
    decreases values.len(),
{
    if values.len() == 0 {
        Seq::empty()
    } else if values.len() == 1 {
        cell_text(values[0], s)
    } else {
        row_text(values.drop_last(), s) + seq![' '] + cell_text(values.last(), s)
    }
}

/// All rows, one per suit, separated by spaces.
pub open spec fn rows_text(suits: Seq<PlayingCardSuit>, values: Seq<PlayingCardValue>) -> Seq<
    char,
>
    decreases suits.len(),
{
    if suits.len() == 0 {
        Seq::empty()
    } else if suits.len() == 1 {
        row_text(values, suits[0])
    } else {
        rows_text(suits.drop_last(), values) + seq![' '] + row_text(values, suits.last())
    }
}

/// The textual form of the builder: the cards in brackets, suit by suit,
/// and the multiplicity.
pub open spec fn builder_text(d: PlayingCardDeck) -> Seq<char> {
    seq!['['] + rows_text(d.spec_suits(), d.spec_values()) + "] ("@ + crate::decimal::dec_rep(
        d.spec_count(),
    ) + "x)"@
}

impl PlayingCardDeck {
    /// Renders the builder as text, e.g. `[J♣ Q♣ K♣ J♥ Q♥ K♥] (2x)`.
    #[verifier::loop_isolation(false)]
    #[verifier::rlimit(60)]
    pub fn to_text(&self) -> (out: String)
        ensures
            out@ == builder_text(*self),
    {
        proof {
            reveal_strlit("[");
            reveal_strlit("] (");
            reveal_strlit("x)");
            reveal_strlit(" ");
            assert("["@ =~= seq!['[']);
            assert(" "@ =~= seq![' ']);
        }
        let mut out = String::new();
        out.append("[");
        let mut j: usize = 0;
        while j < self.suits.len()
            invariant
                0 <= j <= self.suits@.len(),
                out@ == seq!['['] + rows_text(self.suits@.take(j as int), self.values@),
            decreases self.suits@.len() - j,
        {
            if j > 0 {
                out.append(" ");
            }
            let ghost row_base = out@;
            let suit_str = self.suits[j].to_text();
            let mut i: usize = 0;
            while i < self.values.len()
                invariant
                    0 <= i <= self.values@.len(),
                    0 <= j < self.suits@.len(),
                    suit_str@ == seq![suit_char(self.suits@[j as int])],
                    out@ == row_base + row_text(self.values@.take(i as int), self.suits@[
                        j as int]),
                decreases self.values@.len() - i,
            {
                if i > 0 {
                    out.append(" ");
                }
                out.append(self.values[i].as_str());
                out.append(suit_str.as_str());
                proof {
                    let vals = self.values@;
                    let s = self.suits@[j as int];
                    assert(vals.take(i as int + 1).drop_last() =~= vals.take(i as int));
                    assert(vals.take(i as int + 1).last() == vals[i as int]);
                    if i == 0 {
                        assert(vals.take(1int)[0] == vals[0]);
                        assert(out@ =~= row_base + row_text(vals.take(1int), s));
                    } else {
                        assert(out@ =~= row_base + row_text(vals.take(i as int + 1), s));
                    }
                }
                i = i + 1;
            }
            proof {
                let suits = self.suits@;
                assert(self.values@.take(self.values@.len() as int) =~= self.values@);
                assert(suits.take(j as int + 1).drop_last() =~= suits.take(j as int));
                assert(suits.take(j as int + 1).last() == suits[j as int]);
                if j == 0 {
                    assert(suits.take(1int)[0] == suits[0]);
                    assert(out@ =~= seq!['['] + rows_text(suits.take(1int), self.values@));
                } else {
                    assert(out@ =~= seq!['['] + rows_text(
                        suits.take(j as int + 1),
                        self.values@,
                    ));
                }
            }
            j = j + 1;
        }
        proof {
            assert(self.suits@.take(self.suits@.len() as int) =~= self.suits@);
        }
        out.append("] (");
        crate::decimal::push_decimal(self.count, &mut out);
        out.append("x)");
        proof {
            assert(out@ =~= builder_text(*self));
        }
        out
    }
}

impl Default for PlayingCardDeck {
    /// The default builder is the new empty builder.
    fn default() -> (d: PlayingCardDeck)
        ensures
            d.wf(),
            d.spec_values() =~= Seq::<PlayingCardValue>::empty(),
            d.spec_suits() =~= Seq::<PlayingCardSuit>::empty(),
            d.spec_count() == 1,
    {
        PlayingCardDeck::new()
    }
}

/// Every value, in the standard order.
fn every_value() -> (v: Vec<PlayingCardValue>)
    ensures
        v@.len() == 13,
        forall|j: int| 0 <= j < 13 ==> value_rank(#[trigger] v@[j]) == j,
        values_sorted(v@),
{
    let v = vec![
        PlayingCardValue::Two,
        PlayingCardValue::Three,
        PlayingCardValue::Four,
        PlayingCardValue::Five,
        PlayingCardValue::Six,
        PlayingCardValue::Seven,
        PlayingCardValue::Eight,
        PlayingCardValue::Nine,
        PlayingCardValue::Ten,
        PlayingCardValue::Jack,
        PlayingCardValue::Queen,
        PlayingCardValue::King,
        PlayingCardValue::Ace,
    ];
    v
}

/// Every suit, in the standard order.
fn every_suit() -> (v: Vec<PlayingCardSuit>)
    ensures
        v@.len() == 4,
        forall|j: int| 0 <= j < 4 ==> suit_rank(#[trigger] v@[j]) == j,
        suits_sorted(v@),
{
    let v = vec![
        PlayingCardSuit::Diamonds,
        PlayingCardSuit::Clubs,
        PlayingCardSuit::Hearts,
        PlayingCardSuit::Spades,
    ];
    v
}

/// One more cell still fits in the budget of the whole deck.
proof fn lemma_cell_budget(i: int, j: int, v_len: int, s_len: int, cnt: int)
    by (nonlinear_arith)
    requires
        0 <= i < v_len,
        0 <= j < s_len,
        cnt >= 0,
        v_len * s_len * cnt <= u64::MAX,
    ensures
        i * s_len * cnt + j * cnt + cnt <= u64::MAX,
        i * s_len * cnt + j * cnt >= 0,
{
}

/// Inserts a value into a sorted vector, keeping it sorted and without
/// duplicates.
fn insert_value(values: &mut Vec<PlayingCardValue>, v: PlayingCardValue)
    requires
        values_sorted(old(values)@),
    ensures
        values_sorted(final(values)@),
        forall|w: PlayingCardValue|
            #[trigger] final(values)@.contains(w) <==> (old(values)@.contains(w) || w == v),
{
    let r = v.rank();
    let mut i: usize = 0;
    while i < values.len()
        invariant
            values@ == old(values)@,
            values_sorted(values@),
            0 <= i <= values@.len(),
            r as int == value_rank(v),
            forall|j: int| 0 <= j < i ==> value_rank(#[trigger] values@[j]) < r as int,
        decreases values@.len() - i,
    {
        let c = values[i].rank();
        if c >= r {
            if c == r {
                proof {
                    lemma_value_rank_injective(values@[i as int], v);
                    assert forall|w: PlayingCardValue|
                        #[trigger] values@.contains(w) <==> (values@.contains(w) || w == v) by {
                        if w == v {
                            assert(values@[i as int] == w);
                        }
                    }
                }
                return ;
            }
            let ghost old_vals = values@;
            values.insert(i, v);
            proof {
                assert(forall|j: int| 0 <= j < i ==> values@[j] == old_vals[j]);
                assert(values@[i as int] == v);
                assert(forall|j: int|
                    i < j < values@.len() ==> values@[j] == old_vals[j - 1]);
                assert(values_sorted(values@));
                assert forall|w: PlayingCardValue|
                    #[trigger] values@.contains(w) <==> (old_vals.contains(w) || w == v) by {
                    if values@.contains(w) {
                        let idx = choose|idx: int| #![auto] 0 <= idx < values@.len() && values@[idx] == w;
                        if idx < i {
                            assert(old_vals[idx] == w);
                        } else if idx > i {
                            assert(old_vals[idx - 1] == w);
                        }
                    }
                    if old_vals.contains(w) {
                        let idx = choose|idx: int| #![auto]
                            0 <= idx < old_vals.len() && old_vals[idx] == w;
                        if idx < i {
                            assert(values@[idx] == w);
                        } else {
                            assert(values@[idx + 1] == w);
                        }
                    }
                    if w == v {
                        assert(values@[i as int] == w);
                    }
                }
            }
            return ;
        }
        i = i + 1;
    }
    let ghost old_vals = values@;
    values.push(v);
    proof {
        assert(forall|j: int| 0 <= j < old_vals.len() ==> values@[j] == old_vals[j]);
        assert(values@[values@.len() - 1] == v);
        assert(values_sorted(values@));
        assert forall|w: PlayingCardValue|
            #[trigger] values@.contains(w) <==> (old_vals.contains(w) || w == v) by {
            if values@.contains(w) {
                let idx = choose|idx: int| #![auto] 0 <= idx < values@.len() && values@[idx] == w;
                if idx < old_vals.len() {
                    assert(old_vals[idx] == w);
                }
            }
            if old_vals.contains(w) {
                let idx = choose|idx: int| #![auto] 0 <= idx < old_vals.len() && old_vals[idx] == w;
                assert(values@[idx] == w);
            }
        }
    }
}

/// Inserts a suit into a sorted vector, keeping it sorted and without
/// duplicates.
fn insert_suit(suits: &mut Vec<PlayingCardSuit>, s: PlayingCardSuit)
    requires
        suits_sorted(old(suits)@),
    ensures
        suits_sorted(final(suits)@),
        forall|w: PlayingCardSuit|
            #[trigger] final(suits)@.contains(w) <==> (old(suits)@.contains(w) || w == s),
{
    let r = s.rank();
    let mut i: usize = 0;
    while i < suits.len()
        invariant
            suits@ == old(suits)@,
            suits_sorted(suits@),
            0 <= i <= suits@.len(),
            r as int == suit_rank(s),
            forall|j: int| 0 <= j < i ==> suit_rank(#[trigger] suits@[j]) < r as int,
        decreases suits@.len() - i,
    {
        let c = suits[i].rank();
        if c >= r {
            if c == r {
                proof {
                    lemma_suit_rank_injective(suits@[i as int], s);
                    assert forall|w: PlayingCardSuit|
                        #[trigger] suits@.contains(w) <==> (suits@.contains(w) || w == s) by {
                        if w == s {
                            assert(suits@[i as int] == w);
                        }
                    }
                }
                return ;
            }
            let ghost old_suits = suits@;
            suits.insert(i, s);
            proof {
                assert(forall|j: int| 0 <= j < i ==> suits@[j] == old_suits[j]);
                assert(suits@[i as int] == s);
                assert(forall|j: int|
                    i < j < suits@.len() ==> suits@[j] == old_suits[j - 1]);
                assert(suits_sorted(suits@));
                assert forall|w: PlayingCardSuit|
                    #[trigger] suits@.contains(w) <==> (old_suits.contains(w) || w == s) by {
                    if suits@.contains(w) {
                        let idx = choose|idx: int| #![auto] 0 <= idx < suits@.len() && suits@[idx] == w;
                        if idx < i {
                            assert(old_suits[idx] == w);
                        } else if idx > i {
                            assert(old_suits[idx - 1] == w);
                        }
                    }
                    if old_suits.contains(w) {
                        let idx = choose|idx: int| #![auto]
                            0 <= idx < old_suits.len() && old_suits[idx] == w;
                        if idx < i {
                            assert(suits@[idx] == w);
                        } else {
                            assert(suits@[idx + 1] == w);
                        }
                    }
                    if w == s {
                        assert(suits@[i as int] == w);
                    }
                }
            }
            return ;
        }
        i = i + 1;
    }
    let ghost old_suits = suits@;
    suits.push(s);
    proof {
        assert(forall|j: int| 0 <= j < old_suits.len() ==> suits@[j] == old_suits[j]);
        assert(suits@[suits@.len() - 1] == s);
        assert(suits_sorted(suits@));
        assert forall|w: PlayingCardSuit|
            #[trigger] suits@.contains(w) <==> (old_suits.contains(w) || w == s) by {
            if suits@.contains(w) {
                let idx = choose|idx: int| #![auto] 0 <= idx < suits@.len() && suits@[idx] == w;
                if idx < old_suits.len() {
                    assert(old_suits[idx] == w);
                }
            }
            if old_suits.contains(w) {
                let idx = choose|idx: int| #![auto] 0 <= idx < old_suits.len() && old_suits[idx] == w;
                assert(suits@[idx] == w);
            }
        }
    }
}

} // verus!
