//! The deck: an ordered collection of the 52 distinct cards, with shuffle
//! and deal-from-top.

use vstd::arithmetic::div_mod::lemma_fundamental_div_mod;
use vstd::prelude::*;

use crate::card::{Card, Rank, Suit};
use rand::seq::SliceRandom;

verus! {

/// The suit standing at position `i` of the construction order.
pub open spec fn spec_suit_at(i: int) -> Suit {
    if i == 0 {
        Suit::Hearts
    } else if i == 1 {
        Suit::Diamonds
    } else if i == 2 {
        Suit::Clubs
    } else {
        Suit::Spades
    }
}

/// The rank standing at position `j` of the construction order: the ace and
/// the face cards first, then the number cards 2..=10.
pub open spec fn spec_rank_at(j: int) -> Rank {
    if j == 0 {
        Rank::A
    } else if j == 1 {
        Rank::J
    } else if j == 2 {
        Rank::K
    } else if j == 3 {
        Rank::Q
    } else {
        Rank::Number { num: (j - 2) as u8 }
    }
}

/// The card standing at position `i` of a freshly built deck: thirteen
/// ranks per suit, suit by suit.
pub open spec fn spec_fresh_card(i: int) -> Card {
    Card { suit: spec_suit_at(i / 13), rank: spec_rank_at(i % 13) }
}

/// A freshly built deck in construction order: each of the 52 suit/rank
/// pairs exactly once.
pub open spec fn spec_fresh_deck() -> Seq<Card> {
    Seq::new(52, |i: int| spec_fresh_card(i))
}

/// An ordered collection of cards. Built holding each of the 52 distinct
/// cards once; mutated only by `shuffle` and `deal`.
pub struct Deck {
    cards: Vec<Card>,
}

impl View for Deck {
    type V = Seq<Card>;

    closed spec fn view(&self) -> Seq<Card> {
        self.cards@
    }
}

impl Deck {
    /// A fresh deck: exactly the 52 distinct suit/rank pairs, in
    /// construction order.
    pub fn new() -> (d: Deck)
        ensures
            d@ == spec_fresh_deck(),
    {
        let mut cards: Vec<Card> = Vec::new();
        let mut si: usize = 0;
        while si < 4
            invariant
                si <= 4,
                cards@.len() == si * 13,
                forall|k: int| 0 <= k < cards@.len() ==> cards@[k] == spec_fresh_card(k),
            decreases 4 - si,
        {
            let mut rj: usize = 0;
            while rj < 13
                invariant
                    si < 4,
                    rj <= 13,
                    cards@.len() == si * 13 + rj,
                    forall|k: int| 0 <= k < cards@.len() ==> cards@[k] == spec_fresh_card(k),
                decreases 13 - rj,
            {
                let i: usize = si * 13 + rj;
                cards.push(Card { suit: suit_at(si), rank: rank_at(rj) });
                proof {
                    lemma_fresh_index(si as int, rj as int);
                }
                rj = rj + 1;
            }
            si = si + 1;
        }
        proof {
            assert(cards@ =~= spec_fresh_deck());
        }
        Deck { cards }
    }

    /// Relies on rand's `SliceRandom::shuffle`, driven by the generator from
    /// `rand::rng()`: an in-place uniformly random permutation of the slice.
    /// A permutation changes only the order, so the multiset of cards and
    /// the length are kept.
    #[verifier::external_body]
    pub fn shuffle(&mut self)
        ensures
            final(self)@.to_multiset() == old(self)@.to_multiset(),
            final(self)@.len() == old(self)@.len(),
    {
        self.cards.shuffle(&mut rand::rng())
    }

    /// Removes and returns the card on top of the deck (the end of the
    /// sequence), or nothing when the deck is exhausted.
    pub fn deal(&mut self) -> (r: Option<Card>)
        ensures
            old(self)@.len() > 0 ==> r == Some(old(self)@.last()) && final(self)@ == old(
                self,
            )@.drop_last(),
            old(self)@.len() == 0 ==> r is None && final(self)@ == old(self)@,
    {
        self.cards.pop()
    }

    /// How many cards are left in the deck.
    pub fn len(&self) -> (n: usize)
        ensures
            n == self@.len(),
    {
        self.cards.len()
    }
}

/// The executable counterpart of `spec_suit_at`.
fn suit_at(i: usize) -> (s: Suit)
    requires
        i < 4,
    ensures
        s == spec_suit_at(i as int),
{
    match i {
        0 => Suit::Hearts,
        1 => Suit::Diamonds,
        2 => Suit::Clubs,
        _ => Suit::Spades,
    }
}

/// The executable counterpart of `spec_rank_at`.
fn rank_at(j: usize) -> (r: Rank)
    requires
        j < 13,
    ensures
        r == spec_rank_at(j as int),
{
    match j {
        0 => Rank::A,
        1 => Rank::J,
        2 => Rank::K,
        3 => Rank::Q,
        _ => Rank::Number { num: (j - 2) as u8 },
    }
}

/// Position `si * 13 + rj` of the fresh deck holds suit `si` and rank `rj`.
proof fn lemma_fresh_index(si: int, rj: int)
    requires
        0 <= si < 4,
        0 <= rj < 13,
    ensures
        spec_fresh_card(si * 13 + rj) == (Card {
            suit: spec_suit_at(si),
            rank: spec_rank_at(rj),
        }),
{
    let i = si * 13 + rj;
    assert(i / 13 == si && i % 13 == rj) by (nonlinear_arith)
        requires
            0 <= si < 4,
            0 <= rj < 13,
            i == si * 13 + rj,
    ;
}

/// Every position of a fresh deck holds a well-formed card.
pub proof fn lemma_fresh_deck_wf()
    ensures
        forall|i: int| 0 <= i < 52 ==> (#[trigger] spec_fresh_deck()[i]).wf(),
{
    assert forall|i: int| 0 <= i < 52 implies (#[trigger] spec_fresh_deck()[i]).wf() by {
        let j = i % 13;
        assert(0 <= j < 13);
        if j >= 4 {
            assert(spec_rank_at(j) == (Rank::Number { num: (j - 2) as u8 }));
            assert(2 <= (j - 2) as u8 <= 10);
        }
    }
}

/// A fresh deck never holds the same card twice.
pub proof fn lemma_fresh_deck_distinct()
    ensures
        spec_fresh_deck().no_duplicates(),
{
    assert forall|i: int, j: int| 0 <= i < j < 52 implies spec_fresh_deck()[i]
        != spec_fresh_deck()[j] by {
        lemma_fundamental_div_mod(i, 13);
        lemma_fundamental_div_mod(j, 13);
        if i / 13 == j / 13 {
            assert(i % 13 != j % 13);
            lemma_rank_at_injective(i % 13, j % 13);
        } else {
            assert(spec_suit_at(i / 13) != spec_suit_at(j / 13));
        }
    }
}

/// Distinct positions of the rank order hold distinct ranks.
proof fn lemma_rank_at_injective(a: int, b: int)
    requires
        0 <= a < 13,
        0 <= b < 13,
        a != b,
    ensures
        spec_rank_at(a) != spec_rank_at(b),
{
    if a >= 4 && b >= 4 {
        assert((a - 2) as u8 != (b - 2) as u8);
    }
}

/// Every well-formed card stands somewhere in a fresh deck: together with
/// distinctness and the length, the fresh deck holds each of the 52
/// suit/rank pairs exactly once.
pub proof fn lemma_fresh_deck_complete()
    ensures
        forall|c: Card| c.wf() ==> spec_fresh_deck().contains(c),
{
    assert forall|c: Card| c.wf() implies spec_fresh_deck().contains(c) by {
        let si: int = match c.suit {
            Suit::Hearts => 0,
            Suit::Diamonds => 1,
            Suit::Clubs => 2,
            Suit::Spades => 3,
        };
        let rj: int = match c.rank {
            Rank::A => 0,
            Rank::J => 1,
            Rank::K => 2,
            Rank::Q => 3,
            Rank::Number { num } => num + 2,
        };
        assert(0 <= si < 4 && 0 <= rj < 13);
        assert(spec_suit_at(si) == c.suit);
        assert(spec_rank_at(rj) == c.rank);
        lemma_fresh_index(si, rj);
        let w = si * 13 + rj;
        assert(0 <= w < 52);
        assert(spec_fresh_deck()[w] == c);
        assert(spec_fresh_deck().contains(c));
    }
}

/// Two decks with the same multiset of cards are duplicate-free together:
/// shuffling a duplicate-free deck leaves it duplicate-free.
pub proof fn lemma_permutation_keeps_distinct(a: Seq<Card>, b: Seq<Card>)
    requires
        a.to_multiset() == b.to_multiset(),
        a.no_duplicates(),
    ensures
        b.no_duplicates(),
{
    a.lemma_multiset_has_no_duplicates();
    b.lemma_multiset_has_no_duplicates_conv();
}

/// Dealing from a duplicate-free deck hands out a card that no longer
/// stands in the deck, and leaves the deck duplicate-free: successive
/// deals never return the same card twice.
pub proof fn lemma_deal_distinct(cards: Seq<Card>)
    requires
        cards.len() > 0,
        cards.no_duplicates(),
    ensures
        !cards.drop_last().contains(cards.last()),
        cards.drop_last().no_duplicates(),
{
    if cards.drop_last().contains(cards.last()) {
        let k = choose|k: int|
            0 <= k < cards.drop_last().len() && cards.drop_last()[k] == cards.last();
        assert(cards[k] == cards[cards.len() - 1]);
    }
}

} // verus!
