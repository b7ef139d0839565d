//! The card model: suits, ranks and the admissible numeric values of a card.

use vstd::prelude::*;
use vstd::string::*;

use crate::text::{spec_dec_chars, u8_string};

verus! {

/// The symbol a suit is drawn with.
pub open spec fn spec_suit_char(s: Suit) -> char {
    match s {
        Suit::Hearts => '\u{2665}',
        Suit::Diamonds => '\u{2666}',
        Suit::Clubs => '\u{2663}',
        Suit::Spades => '\u{2660}',
    }
}

/// The symbol a rank is drawn with: a letter for the ace and the faces, the
/// printed number for a number card.
pub open spec fn spec_rank_chars(r: Rank) -> Seq<char> {
    match r {
        Rank::A => seq!['A'],
        Rank::J => seq!['J'],
        Rank::Q => seq!['Q'],
        Rank::K => seq!['K'],
        Rank::Number { num } => spec_dec_chars(num as int),
    }
}

/// A card as the table shows it: its suit symbol followed by its rank symbol.
pub open spec fn spec_card_chars(c: Card) -> Seq<char> {
    seq![spec_suit_char(c.suit)] + spec_rank_chars(c.rank)
}

/// One of the four suits of a standard deck. Purely cosmetic: a card's
/// value never depends on its suit.
#[derive(Clone, Copy, PartialEq, Eq, Structural, Debug)]
pub enum Suit {
    Hearts,
    Diamonds,
    Clubs,
    Spades,
}

/// The rank of a card: ace, one of the three face cards, or a number card
/// carrying its printed number, which ranges over 2..=10.
#[derive(Clone, Copy, PartialEq, Eq, Structural, Debug)]
pub enum Rank {
    A,
    J,
    Q,
    K,
    Number { num: u8 },
}

impl Rank {
    /// A rank is well formed when a number card's printed number lies in 2..=10.
    pub open spec fn wf(self) -> bool {
        match self {
            Rank::Number { num } => 2 <= num && num <= 10,
            _ => true,
        }
    }
}

/// An immutable playing card: a suit paired with a rank. Copied by value;
/// a card has no identity beyond its suit and rank.
#[derive(Clone, Copy, PartialEq, Eq, Structural, Debug)]
pub struct Card {
    pub suit: Suit,
    pub rank: Rank,
}

impl Card {
    /// A card is well formed when its rank is.
    pub open spec fn wf(self) -> bool {
        self.rank.wf()
    }

    /// The admissible numeric values of a card, as a sequence: an ace counts
    /// as 1 or 11, a number card as its printed number, a face card as 10.
    pub open spec fn spec_values(self) -> Seq<u8> {
        match self.rank {
            Rank::A => seq![1u8, 11u8],
            Rank::Number { num } => seq![num],
            _ => seq![10u8],
        }
    }

    pub fn new(suit: Suit, rank: Rank) -> (c: Card)
        requires
            rank.wf(),
        ensures
            c == (Card { suit, rank }),
    {
        Card { suit, rank }
    }

    /// Aces have two admissible values, so every card yields a list.
    pub fn values(&self) -> (r: Vec<u8>)
        ensures
            r@ == self.spec_values(),
    {
        match self.rank {
            Rank::A => {
                let mut v: Vec<u8> = Vec::new();
                v.push(1u8);
                v.push(11u8);
                proof {
                    assert(v@ =~= seq![1u8, 11u8]);
                }
                v
            },
            Rank::Number { num } => {
                let mut v: Vec<u8> = Vec::new();
                v.push(num);
                proof {
                    assert(v@ =~= seq![num]);
                }
                v
            },
            _ => {
                // every card that is neither an ace nor a number card is a face
                let mut v: Vec<u8> = Vec::new();
                v.push(10u8);
                proof {
                    assert(v@ =~= seq![10u8]);
                }
                v
            },
        }
    }
}

impl Card {
    /// The text a card is shown as: suit symbol, then rank symbol.
    pub fn display_string(&self) -> (s: String)
        ensures
            s@ == spec_card_chars(*self),
    {
        let mut s = String::new();
        match self.suit {
            Suit::Hearts => {
                s.append("\u{2665}");
                proof {
                    reveal_strlit("\u{2665}");
                }
            },
            Suit::Diamonds => {
                s.append("\u{2666}");
                proof {
                    reveal_strlit("\u{2666}");
                }
            },
            Suit::Clubs => {
                s.append("\u{2663}");
                proof {
                    reveal_strlit("\u{2663}");
                }
            },
            Suit::Spades => {
                s.append("\u{2660}");
                proof {
                    reveal_strlit("\u{2660}");
                }
            },
        }
        match self.rank {
            Rank::A => {
                s.append("A");
                proof {
                    reveal_strlit("A");
                }
            },
            Rank::J => {
                s.append("J");
                proof {
                    reveal_strlit("J");
                }
            },
            Rank::Q => {
                s.append("Q");
                proof {
                    reveal_strlit("Q");
                }
            },
            Rank::K => {
                s.append("K");
                proof {
                    reveal_strlit("K");
                }
            },
            Rank::Number { num } => {
                let ns = u8_string(num);
                s.append(ns.as_str());
            },
        }
        proof {
            assert(s@ =~= spec_card_chars(*self));
        }
        s
    }
}

/// The set of admissible numeric values of a card, as mathematical integers.
pub open spec fn card_value_set(c: Card) -> Set<int> {
    match c.rank {
        Rank::A => set![1int, 11int],
        Rank::Number { num } => set![num as int],
        _ => set![10int],
    }
}

/// The sequence of admissible values and the set of admissible values
/// list exactly the same numbers.
pub proof fn lemma_values_set(c: Card)
    ensures
        forall|v: int|
            card_value_set(c).contains(v) <==> exists|k: int|
                0 <= k < c.spec_values().len() && c.spec_values()[k] as int == v,
{
    match c.rank {
        Rank::A => {
            assert forall|v: int| card_value_set(c).contains(v) implies exists|k: int|
                0 <= k < c.spec_values().len() && c.spec_values()[k] as int == v by {
                if v == 1 {
                    assert(c.spec_values()[0] as int == v);
                } else {
                    assert(c.spec_values()[1] as int == v);
                }
            }
        },
        Rank::Number { num } => {
            assert forall|v: int| card_value_set(c).contains(v) implies exists|k: int|
                0 <= k < c.spec_values().len() && c.spec_values()[k] as int == v by {
                assert(c.spec_values()[0] as int == v);
            }
        },
        _ => {
            assert forall|v: int| card_value_set(c).contains(v) implies exists|k: int|
                0 <= k < c.spec_values().len() && c.spec_values()[k] as int == v by {
                assert(c.spec_values()[0] as int == v);
            }
        },
    }
}

} // verus!
