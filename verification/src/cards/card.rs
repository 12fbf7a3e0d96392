//! A single card, identified by its text.

use vstd::prelude::*;

verus! {

/// A card as it may be included in a [`CardDeck`](crate::cards::CardDeck).
///
/// Cards carry a text label; two cards are the same exactly when their
/// labels are equal. Cards are totally ordered by [`card_lt`]: shorter
/// labels first, labels of equal length lexicographically by character.
/// This order is what makes every traversal of a deck or of a draw tree
/// deterministic; for purely numeric labels it coincides with numeric
/// order.
#[derive(PartialEq, Eq, Hash, Debug, Default)]
pub struct Card {
    text: String,
}

impl View for Card {
    type V = Seq<char>;

    closed spec fn view(&self) -> Seq<char> {
        self.text@
    }
}

impl Clone for Card {
    /// The clone of a card is the card itself.
    fn clone(&self) -> (c: Card)
        ensures
            c == *self,
    {
        Card { text: self.text.clone() }
    }
}

impl Card {
    /// Creates a new card with the given text.
    pub fn new(text: &str) -> (c: Card)
        ensures
            c@ == text@,
    {
        Card { text: text.to_owned() }
    }

    /// Returns the text of the card.
    pub fn text(&self) -> (t: &str)
        ensures
            t@ == self@,
    {
        self.text.as_str()
    }

    /// Renders the card as text: its label in parentheses.
    pub fn to_text(&self) -> (s: String)
        ensures
            s@ == seq!['('] + self@ + seq![')'],
    {
        proof {
            reveal_strlit("(");
            reveal_strlit(")");
        }
        let mut out = String::new();
        out.append("(");
        out.append(self.text.as_str());
        out.append(")");
        assert(out@ =~= seq!['('] + self@ + seq![')']);
        out
    }

    /// Compares two cards in the order described on [`Card`].
    pub fn lt(&self, other: &Card) -> (r: bool)
        ensures
            r == card_lt(self@, other@),
    {
        str_lt(self.text.as_str(), other.text.as_str())
    }

    /// Decides equality of two cards.
    pub fn same(&self, other: &Card) -> (r: bool)
        ensures
            r == (self@ == other@),
    {
        self.text.eq(&other.text)
    }
}

/// The strict total order on card labels: shorter first, equal lengths
/// lexicographically by character.
pub open spec fn card_lt(a: Seq<char>, b: Seq<char>) -> bool
    decreases a.len(),
{
    if a.len() < b.len() {
        true
    } else if a.len() > b.len() {
        false
    } else if a.len() == 0 {
        false
    } else if a[0] != b[0] {
        (a[0] as u32) < (b[0] as u32)
    } else {
        card_lt(a.drop_first(), b.drop_first())
    }
}

/// Distinct characters have distinct scalar values.
proof fn lemma_char_cast_injective(x: char, y: char)
    ensures
        x as u32 == y as u32 ==> x == y,
{
    vstd::utf8::char_u32_cast(x, x as u32);
    vstd::utf8::char_u32_cast(y, y as u32);
}

/// Dropping the first character shifts the indices by one.
proof fn lemma_drop_first_index(a: Seq<char>)
    requires
        a.len() > 0,
    ensures
        a.drop_first().len() == a.len() - 1,
        forall|j: int| 0 <= j < a.len() - 1 ==> a.drop_first()[j] == a[j + 1],
{
}

/// No label is below itself.
pub proof fn lemma_card_lt_irreflexive(a: Seq<char>)
    ensures
        !card_lt(a, a),
    decreases a.len(),
{
    if a.len() > 0 {
        lemma_card_lt_irreflexive(a.drop_first());
    }
}

/// Any two distinct labels are ordered one way or the other.
pub proof fn lemma_card_lt_total(a: Seq<char>, b: Seq<char>)
    ensures
        card_lt(a, b) || card_lt(b, a) || a == b,
    decreases a.len(),
{
    if a.len() == b.len() && a.len() > 0 && a[0] != b[0] {
        lemma_char_cast_injective(a[0], b[0]);
    }
    if a.len() == b.len() && a.len() > 0 && a[0] == b[0] {
        lemma_card_lt_total(a.drop_first(), b.drop_first());
        if a.drop_first() == b.drop_first() {
            lemma_drop_first_index(a);
            lemma_drop_first_index(b);
            assert forall|j: int| 0 <= j < a.len() implies a[j] == b[j] by {
                if j > 0 {
                    assert(a.drop_first()[j - 1] == b.drop_first()[j - 1]);
                }
            }
            assert(a =~= b);
        }
    } else if a.len() == b.len() && a.len() == 0 {
        assert(a =~= b);
    }
}

/// The order on labels is transitive.
pub proof fn lemma_card_lt_transitive(a: Seq<char>, b: Seq<char>, c: Seq<char>)
    ensures
        card_lt(a, b) && card_lt(b, c) ==> card_lt(a, c),
    decreases a.len(),
{
    if a.len() == b.len() && b.len() == c.len() && a.len() > 0 {
        lemma_card_lt_transitive(a.drop_first(), b.drop_first(), c.drop_first());
    }
}

/// Two ordered labels are distinct.
pub proof fn lemma_card_lt_asymmetric(a: Seq<char>, b: Seq<char>)
    ensures
        card_lt(a, b) ==> !card_lt(b, a) && a != b,
    decreases a.len(),
{
    if a.len() == b.len() && a.len() > 0 && a[0] == b[0] {
        lemma_card_lt_asymmetric(a.drop_first(), b.drop_first());
    }
}

/// Skipping a shared prefix does not change the relative order of two
/// labels of equal length.
proof fn lemma_card_lt_common_prefix(a: Seq<char>, b: Seq<char>, i: int)
    requires
        a.len() == b.len(),
        0 <= i <= a.len(),
        forall|j: int| 0 <= j < i ==> a[j] == b[j],
    ensures
        card_lt(a, b) == card_lt(a.skip(i), b.skip(i)),
    decreases i,
{
    if i == 0 {
        assert(a.skip(0) =~= a);
        assert(b.skip(0) =~= b);
    } else {
        assert(a[0] == b[0]);
        lemma_drop_first_index(a);
        lemma_drop_first_index(b);
        assert(a.drop_first() =~= a.skip(1));
        assert(b.drop_first() =~= b.skip(1));
        assert(forall|j: int| 0 <= j < i - 1 ==> a.skip(1)[j] == b.skip(1)[j]);
        lemma_card_lt_common_prefix(a.skip(1), b.skip(1), i - 1);
        assert(a.skip(1).skip(i - 1) =~= a.skip(i));
        assert(b.skip(1).skip(i - 1) =~= b.skip(i));
    }
}

/// Compares two strings in the order described on [`Card`].
pub fn str_lt(a: &str, b: &str) -> (r: bool)
    ensures
        r == card_lt(a@, b@),
{
    let a_len = a.unicode_len();
    let b_len = b.unicode_len();
    if a_len < b_len {
        return true;
    }
    if a_len > b_len {
        return false;
    }
    let mut i: usize = 0;
    while i < a_len
        invariant
            a_len == a@.len(),
            a@.len() == b@.len(),
            0 <= i <= a_len,
            forall|j: int| 0 <= j < i ==> a@[j] == b@[j],
        decreases a_len - i,
    {
        let ca = a.get_char(i);
        let cb = b.get_char(i);
        if ca != cb {
            proof {
                lemma_card_lt_common_prefix(a@, b@, i as int);
                assert(a@.skip(i as int)[0] == a@[i as int]);
                assert(b@.skip(i as int)[0] == b@[i as int]);
            }
            return (ca as u32) < (cb as u32);
        }
        i = i + 1;
    }
    proof {
        assert(a@ =~= b@);
        lemma_card_lt_irreflexive(a@);
    }
    false
}

} // verus!
