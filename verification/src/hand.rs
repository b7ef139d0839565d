//! The hand: an ordered collection of cards, valued by a combination search
//! that keeps every partial total still within 21 and prunes the rest.

use vstd::prelude::*;
use vstd::string::*;

use crate::card::{card_value_set, lemma_values_set, spec_card_chars, Card};
use crate::text::{spec_dec_chars, u8_string};

verus! {

/// The totals reachable one card further on: every sum `t + v` of an already
/// reachable total `t` and an admissible value `v` of the card, kept only
/// while it stays within 21.
pub open spec fn step_totals(prev: Set<int>, c: Card) -> Set<int> {
    Set::new(
        |s: int|
            s <= 21 && exists|t: int, v: int|
                #[trigger] prev.contains(t) && #[trigger] card_value_set(c).contains(v) && s == t
                    + v,
    )
}

/// The reachable partial totals of a hand: starting from {0}, each card in
/// order replaces every total by its pruned extensions. Once the set turns
/// empty (every combination busted) it stays empty.
pub open spec fn reachable_totals(cards: Seq<Card>) -> Set<int>
    decreases cards.len(),
{
    if cards.len() == 0 {
        set![0int]
    } else {
        step_totals(reachable_totals(cards.drop_last()), cards.last())
    }
}

/// `m` is the greatest element of `s`.
pub open spec fn is_max_of(m: int, s: Set<int>) -> bool {
    s.contains(m) && forall|t: int| s.contains(t) ==> t <= m
}

/// The value of a hand: the greatest reachable total, or 0 when no total is
/// reachable (every combination busted; the empty hand reaches exactly 0).
pub open spec fn spec_hand_value(cards: Seq<Card>) -> int {
    if exists|m: int| is_max_of(m, reachable_totals(cards)) {
        choose|m: int| is_max_of(m, reachable_totals(cards))
    } else {
        0
    }
}

/// The set of totals held in a working list of the valuation loop.
pub open spec fn totals_of(s: Seq<u8>) -> Set<int> {
    Set::new(|t: int| exists|k: int| 0 <= k < s.len() && #[trigger] s[k] as int == t)
}

/// Appending a total to a working list adds exactly that total to its set.
proof fn lemma_totals_push(s: Seq<u8>, v: u8)
    ensures
        totals_of(s.push(v)) == totals_of(s).insert(v as int),
{
    assert forall|t: int|
        totals_of(s.push(v)).contains(t) implies totals_of(s).insert(v as int).contains(t) by {
        let k = choose|k: int| 0 <= k < s.push(v).len() && #[trigger] s.push(v)[k] as int == t;
        if k < s.len() {
            assert(s[k] as int == t);
        }
    }
    assert forall|t: int|
        totals_of(s).insert(v as int).contains(t) implies totals_of(s.push(v)).contains(t) by {
        if totals_of(s).contains(t) {
            let k = choose|k: int| 0 <= k < s.len() && #[trigger] s[k] as int == t;
            assert(s.push(v)[k] as int == t);
        } else {
            assert(s.push(v)[s.len() as int] as int == t);
        }
    }
    assert(totals_of(s.push(v)) =~= totals_of(s).insert(v as int));
}

/// The empty working list holds no totals.
proof fn lemma_totals_empty()
    ensures
        totals_of(Seq::<u8>::empty()) == Set::<int>::empty(),
{
    assert(totals_of(Seq::<u8>::empty()) =~= Set::<int>::empty());
}

/// One card further into the hand, the reachable totals step once.
proof fn lemma_reachable_step(cards: Seq<Card>, i: int)
    requires
        0 <= i < cards.len(),
    ensures
        reachable_totals(cards.take(i + 1)) == step_totals(
            reachable_totals(cards.take(i)),
            cards[i],
        ),
{
    let pre = cards.take(i + 1);
    assert(pre.drop_last() =~= cards.take(i));
    assert(pre.last() == cards[i]);
}

/// Once every combination has busted, no later card revives the hand.
proof fn lemma_empty_extends(cards: Seq<Card>, i: int)
    requires
        0 <= i <= cards.len(),
        reachable_totals(cards.take(i)) == Set::<int>::empty(),
    ensures
        reachable_totals(cards) == Set::<int>::empty(),
    decreases cards.len() - i,
{
    if i == cards.len() {
        assert(cards.take(i) =~= cards);
    } else {
        lemma_reachable_step(cards, i);
        assert(step_totals(Set::<int>::empty(), cards[i]) =~= Set::<int>::empty());
        lemma_empty_extends(cards, i + 1);
    }
}

/// The totals gathered while sweeping the value pairs of one card: the sums
/// of every old total with the first `a` values, and of the first `b` old
/// totals with value number `a`, pruned at 21.
pub open spec fn step_partial(olds: Seq<u8>, vals: Seq<u8>, a: int, b: int) -> Set<int> {
    Set::new(
        |s: int|
            s <= 21 && exists|k: int, j: int|
                #![trigger vals[k], olds[j]]
                0 <= k < vals.len() && 0 <= j < olds.len() && (k < a || (k == a && j < b)) && s
                    == olds[j] + vals[k],
    )
}

/// Finishing a value row moves the sweep to the start of the next one.
proof fn lemma_step_partial_row(olds: Seq<u8>, vals: Seq<u8>, a: int)
    ensures
        step_partial(olds, vals, a, olds.len() as int) == step_partial(olds, vals, a + 1, 0),
{
    assert(step_partial(olds, vals, a, olds.len() as int) =~= step_partial(olds, vals, a + 1, 0));
}

/// A finished sweep over a card's values gathers exactly the stepped totals.
proof fn lemma_step_partial_complete(olds: Seq<u8>, c: Card)
    ensures
        step_partial(olds, c.spec_values(), c.spec_values().len() as int, 0) == step_totals(
            totals_of(olds),
            c,
        ),
{
    lemma_values_set(c);
    let vals = c.spec_values();
    let lhs = step_partial(olds, vals, vals.len() as int, 0);
    let rhs = step_totals(totals_of(olds), c);
    assert forall|s: int| lhs.contains(s) implies rhs.contains(s) by {
        let (k, j) = choose|k: int, j: int|
            #![trigger vals[k], olds[j]]
            0 <= k < vals.len() && 0 <= j < olds.len() && (k < vals.len() || (k == vals.len() && j
                < 0)) && s == olds[j] + vals[k];
        assert(totals_of(olds).contains(olds[j] as int));
        assert(card_value_set(c).contains(vals[k] as int));
    }
    assert forall|s: int| rhs.contains(s) implies lhs.contains(s) by {
        let (t, v) = choose|t: int, v: int|
            #[trigger] totals_of(olds).contains(t) && #[trigger] card_value_set(c).contains(v)
                && s == t + v;
        let j = choose|j: int| 0 <= j < olds.len() && #[trigger] olds[j] as int == t;
        let k = choose|k: int| 0 <= k < vals.len() && vals[k] as int == v;
        assert(0 <= k < vals.len() && 0 <= j < olds.len() && s == olds[j] + vals[k]);
    }
    assert(lhs =~= rhs);
}

/// An ordered collection of cards held by one participant for a round.
/// It grows only by `add_card` and its value is recomputed from the full
/// card sequence on every call.
pub struct Hand {
    cards: Vec<Card>,
}

impl View for Hand {
    type V = Seq<Card>;

    closed spec fn view(&self) -> Seq<Card> {
        self.cards@
    }
}

impl Hand {
    /// An empty hand.
    pub fn new() -> (h: Hand)
        ensures
            h@ == Seq::<Card>::empty(),
    {
        Hand { cards: Vec::new() }
    }

    /// Appends one card to the hand.
    pub fn add_card(&mut self, card: Card)
        ensures
            final(self)@ == old(self)@.push(card),
    {
        self.cards.push(card);
    }

    /// How many cards the hand holds.
    pub fn len(&self) -> (n: usize)
        ensures
            n == self@.len(),
    {
        self.cards.len()
    }

    /// The most recently added card, or nothing for an empty hand.
    pub fn last_card(&self) -> (r: Option<Card>)
        ensures
            self@.len() > 0 ==> r == Some(self@.last()),
            self@.len() == 0 ==> r is None,
    {
        if self.cards.len() == 0 {
            None
        } else {
            Some(self.cards[self.cards.len() - 1])
        }
    }

    /// The best attainable total of the hand that stays within 21, over every
    /// combination of the cards' admissible values; 0 when every combination
    /// busts, and 0 for the empty hand.
    pub fn value(&self) -> (r: u8)
        ensures
            r as int == spec_hand_value(self@),
            r <= 21,
    {
        let mut hand_vals: Vec<u8> = Vec::new();
        hand_vals.push(0u8);
        proof {
            assert(hand_vals@[0] as int == 0);
            assert(totals_of(hand_vals@) =~= set![0int]);
            assert(self@.take(0) =~= Seq::<Card>::empty());
        }
        let mut idx: usize = 0;
        while idx < self.cards.len()
            invariant
                idx <= self.cards.len(),
                hand_vals@.len() > 0,
                totals_of(hand_vals@) == reachable_totals(self@.take(idx as int)),
                forall|k: int| 0 <= k < hand_vals@.len() ==> hand_vals@[k] <= 21,
            decreases self.cards.len() - idx,
        {
            let card = self.cards[idx];
            let ghost prev = totals_of(hand_vals@);
            let mut old_vals: Vec<u8> = Vec::new();
            proof {
                lemma_totals_empty();
                assert(totals_of(hand_vals@).union(totals_of(old_vals@)) =~= prev);
            }
            loop
                invariant
                    totals_of(hand_vals@).union(totals_of(old_vals@)) == prev,
                    forall|k: int| 0 <= k < hand_vals@.len() ==> hand_vals@[k] <= 21,
                    forall|k: int| 0 <= k < old_vals@.len() ==> old_vals@[k] <= 21,
                ensures
                    hand_vals@.len() == 0,
                    totals_of(old_vals@) == prev,
                    forall|k: int| 0 <= k < old_vals@.len() ==> old_vals@[k] <= 21,
                decreases hand_vals@.len(),
            {
                let ghost hv = hand_vals@;
                let ghost ov = old_vals@;
                match hand_vals.pop() {
                    Some(old_val) => {
                        old_vals.push(old_val);
                        proof {
                            assert(hv.drop_last() =~= hand_vals@);
                            assert(hv =~= hand_vals@.push(old_val));
                            lemma_totals_push(hand_vals@, old_val);
                            lemma_totals_push(ov, old_val);
                            assert(totals_of(hand_vals@).union(totals_of(old_vals@)) =~= prev);
                        }
                    },
                    None => {
                        proof {
                            lemma_totals_empty();
                            assert(totals_of(old_vals@) =~= prev);
                        }
                        break ;
                    },
                }
            }
            let vs = card.values();
            let mut a: usize = 0;
            proof {
                assert(totals_of(hand_vals@) =~= step_partial(old_vals@, vs@, 0, 0));
            }
            while a < vs.len()
                invariant
                    a <= vs@.len(),
                    vs@ == card.spec_values(),
                    totals_of(old_vals@) == prev,
                    totals_of(hand_vals@) == step_partial(old_vals@, vs@, a as int, 0),
                    forall|k: int| 0 <= k < old_vals@.len() ==> old_vals@[k] <= 21,
                    forall|k: int| 0 <= k < hand_vals@.len() ==> hand_vals@[k] <= 21,
                decreases vs@.len() - a,
            {
                let new_val = vs[a];
                let mut b: usize = 0;
                while b < old_vals.len()
                    invariant
                        a < vs@.len(),
                        b <= old_vals@.len(),
                        new_val == vs@[a as int],
                        totals_of(hand_vals@) == step_partial(old_vals@, vs@, a as int, b as int),
                        forall|k: int| 0 <= k < old_vals@.len() ==> old_vals@[k] <= 21,
                        forall|k: int| 0 <= k < hand_vals@.len() ==> hand_vals@[k] <= 21,
                    decreases old_vals@.len() - b,
                {
                    let old_val = old_vals[b];
                    let ghost hv = hand_vals@;
                    if (new_val as u16) + (old_val as u16) <= 21 {
                        hand_vals.push(new_val + old_val);
                        proof {
                            lemma_totals_push(hv, (new_val + old_val) as u8);
                            assert(totals_of(hand_vals@) =~= step_partial(
                                old_vals@,
                                vs@,
                                a as int,
                                b as int + 1,
                            ));
                        }
                    } else {
                        proof {
                            assert(totals_of(hand_vals@) =~= step_partial(
                                old_vals@,
                                vs@,
                                a as int,
                                b as int + 1,
                            ));
                        }
                    }
                    b = b + 1;
                }
                proof {
                    lemma_step_partial_row(old_vals@, vs@, a as int);
                }
                a = a + 1;
            }
            proof {
                lemma_step_partial_complete(old_vals@, card);
                lemma_reachable_step(self@, idx as int);
                assert(totals_of(hand_vals@) == reachable_totals(self@.take(idx as int + 1)));
            }
            if hand_vals.len() == 0 {
                proof {
                    lemma_totals_empty();
                    assert(reachable_totals(self@.take(idx as int + 1)) =~= Set::<int>::empty());
                    lemma_empty_extends(self@, idx as int + 1);
                    assert forall|m: int| !is_max_of(m, reachable_totals(self@)) by {
                        assert(!reachable_totals(self@).contains(m));
                    }
                }
                return 0;
            }
            idx = idx + 1;
        }
        proof {
            assert(self@.take(self@.len() as int) =~= self@);
        }
        let mut m: u8 = hand_vals[0];
        let mut j: usize = 1;
        proof {
            assert(hand_vals@[0] == m);
        }
        while j < hand_vals.len()
            invariant
                1 <= j <= hand_vals@.len(),
                exists|k: int| 0 <= k < hand_vals@.len() && hand_vals@[k] == m,
                forall|k: int| 0 <= k < j ==> hand_vals@[k] <= m,
                forall|k: int| 0 <= k < hand_vals@.len() ==> hand_vals@[k] <= 21,
                totals_of(hand_vals@) == reachable_totals(self@),
            decreases hand_vals@.len() - j,
        {
            if hand_vals[j] > m {
                m = hand_vals[j];
                proof {
                    assert(hand_vals@[j as int] == m);
                }
            }
            j = j + 1;
        }
        proof {
            let r = reachable_totals(self@);
            let k0 = choose|k: int| 0 <= k < hand_vals@.len() && hand_vals@[k] == m;
            assert(hand_vals@[k0] as int == m as int);
            assert(r.contains(m as int));
            assert forall|t: int| r.contains(t) implies t <= m as int by {
                let k = choose|k: int| 0 <= k < hand_vals@.len() && #[trigger] hand_vals@[k] as int
                    == t;
                assert(hand_vals@[k] <= m);
            }
            assert(is_max_of(m as int, r));
            let mm = choose|x: int| is_max_of(x, r);
            assert(is_max_of(mm, r));
            assert(mm == m as int);
        }
        m
    }

    /// The text a hand is shown as: its cards, comma-joined, followed by
    /// its value.
    pub fn display_string(&self) -> (s: String)
        ensures
            s@ == spec_hand_display(self@),
    {
        let mut s = String::new();
        proof {
            reveal_strlit(", ");
            assert(", "@ =~= seq![',', ' ']);
            assert(self@.take(0) =~= Seq::<Card>::empty());
        }
        let mut i: usize = 0;
        while i < self.cards.len()
            invariant
                i <= self@.len(),
                s@ == spec_cards_joined(self@.take(i as int)),
            decreases self@.len() - i,
        {
            proof {
                reveal_strlit(", ");
                assert(", "@ =~= seq![',', ' ']);
            }
            if i > 0 {
                s.append(", ");
            }
            let cs = self.cards[i].display_string();
            s.append(cs.as_str());
            proof {
                let pre = self@.take(i as int + 1);
                assert(pre.drop_last() =~= self@.take(i as int));
                assert(pre.last() == self@[i as int]);
                assert(s@ =~= spec_cards_joined(pre));
            }
            i = i + 1;
        }
        proof {
            assert(self@.take(self@.len() as int) =~= self@);
            reveal_strlit(" (Value: ");
            reveal_strlit(")");
            assert(" (Value: "@ =~= seq![' ', '(', 'V', 'a', 'l', 'u', 'e', ':', ' ']);
            assert(")"@ =~= seq![')']);
        }
        s.append(" (Value: ");
        let v = self.value();
        let vs = u8_string(v);
        s.append(vs.as_str());
        s.append(")");
        proof {
            assert(s@ =~= spec_hand_display(self@));
        }
        s
    }

    /// A natural blackjack: worth exactly 21 from exactly 2 cards.
    pub fn is_blackjack(&self) -> (r: bool)
        ensures
            r == (spec_hand_value(self@) == 21 && self@.len() == 2),
    {
        self.value() == 21 && self.cards.len() == 2
    }
}

/// A hand's cards as the table shows them, comma-joined.
pub open spec fn spec_cards_joined(cards: Seq<Card>) -> Seq<char>
    decreases cards.len(),
{
    if cards.len() == 0 {
        Seq::<char>::empty()
    } else if cards.len() == 1 {
        spec_card_chars(cards[0])
    } else {
        spec_cards_joined(cards.drop_last()) + seq![',', ' '] + spec_card_chars(cards.last())
    }
}

/// The full text a hand is shown as: the joined cards followed by the
/// hand's value.
pub open spec fn spec_hand_display(cards: Seq<Card>) -> Seq<char> {
    spec_cards_joined(cards) + seq![' ', '(', 'V', 'a', 'l', 'u', 'e', ':', ' '] + spec_dec_chars(
        spec_hand_value(cards),
    ) + seq![')']
}

/// No card of the hand is an ace.
pub open spec fn no_aces(cards: Seq<Card>) -> bool {
    forall|i: int| 0 <= i < cards.len() ==> !((#[trigger] cards[i]).rank is A)
}

/// The lowest admissible value of a card: an ace at 1, a number card at its
/// printed number, a face card at 10. For a card that is not an ace this is
/// its only admissible value.
pub open spec fn low_value(c: Card) -> int {
    match c.rank {
        crate::card::Rank::A => 1,
        crate::card::Rank::Number { num } => num as int,
        _ => 10,
    }
}

/// The sum of the lowest admissible values of a hand's cards: the smallest
/// total any combination can produce, and for a hand with no aces the plain
/// arithmetic sum.
pub open spec fn low_sum(cards: Seq<Card>) -> int
    decreases cards.len(),
{
    if cards.len() == 0 {
        0
    } else {
        low_sum(cards.drop_last()) + low_value(cards.last())
    }
}

/// For a hand with no aces the reachable totals are a single total, the
/// plain sum, as long as that sum stays within 21, and nothing afterwards.
proof fn lemma_reach_no_aces(cards: Seq<Card>)
    requires
        no_aces(cards),
    ensures
        reachable_totals(cards) == if low_sum(cards) <= 21 {
            set![low_sum(cards)]
        } else {
            Set::<int>::empty()
        },
    decreases cards.len(),
{
    if cards.len() == 0 {
        assert(reachable_totals(cards) =~= set![low_sum(cards)]);
    } else {
        let prefix = cards.drop_last();
        let c = cards.last();
        assert(no_aces(prefix)) by {
            assert(forall|i: int|
                0 <= i < prefix.len() ==> (#[trigger] prefix[i]) == cards[i]);
        }
        lemma_reach_no_aces(prefix);
        let ps = low_sum(prefix);
        let mv = low_value(c);
        assert(card_value_set(c) == set![mv]) by {
            assert(!(c.rank is A));
        }
        assert(mv >= 0);
        if ps <= 21 {
            if ps + mv <= 21 {
                assert(step_totals(set![ps], c) =~= set![ps + mv]) by {
                    assert(set![ps].contains(ps));
                    assert(card_value_set(c).contains(mv));
                }
            } else {
                assert(step_totals(set![ps], c) =~= Set::<int>::empty());
            }
        } else {
            assert(step_totals(Set::<int>::empty(), c) =~= Set::<int>::empty());
            assert(ps + mv > 21);
        }
    }
}

/// A hand with no aces is worth the plain sum of its cards when that sum
/// stays within 21, and is busted (worth 0) otherwise.
pub proof fn lemma_no_ace_value(cards: Seq<Card>)
    requires
        no_aces(cards),
    ensures
        spec_hand_value(cards) == if low_sum(cards) <= 21 {
            low_sum(cards)
        } else {
            0
        },
{
    lemma_reach_no_aces(cards);
    let r = reachable_totals(cards);
    if low_sum(cards) <= 21 {
        let s = low_sum(cards);
        assert(r.contains(s));
        assert(is_max_of(s, r)) by {
            assert(forall|t: int| r.contains(t) ==> t == s);
        }
        let mm = choose|m: int| is_max_of(m, r);
        assert(is_max_of(mm, r));
        assert(mm == s);
    } else {
        assert(forall|m: int| !is_max_of(m, r)) by {
            assert(forall|m: int| !r.contains(m));
        }
    }
}

/// Every reachable total is at least the sum of the cards' lowest values.
proof fn lemma_reach_lower_bound(cards: Seq<Card>)
    ensures
        forall|t: int| reachable_totals(cards).contains(t) ==> t >= low_sum(cards),
    decreases cards.len(),
{
    if cards.len() == 0 {
    } else {
        let prefix = cards.drop_last();
        let c = cards.last();
        lemma_reach_lower_bound(prefix);
        assert forall|t: int| reachable_totals(cards).contains(t) implies t >= low_sum(cards) by {
            let (t0, v) = choose|t0: int, v: int|
                #[trigger] reachable_totals(prefix).contains(t0)
                    && #[trigger] card_value_set(c).contains(v) && t == t0 + v;
            assert(t0 >= low_sum(prefix));
            assert(v >= low_value(c)) by {
                match c.rank {
                    crate::card::Rank::A => {
                        assert(v == 1 || v == 11);
                    },
                    crate::card::Rank::Number { num } => {
                        assert(v == num as int);
                    },
                    _ => {
                        assert(v == 10);
                    },
                }
            }
        }
    }
}

/// Every reachable total of a non-empty hand stays within 21.
proof fn lemma_reach_within_21(cards: Seq<Card>)
    requires
        cards.len() > 0,
    ensures
        forall|t: int| reachable_totals(cards).contains(t) ==> t <= 21,
{
}

/// A hand whose every combination of values exceeds 21 — even the one made
/// of each card's lowest value — is busted and worth 0.
pub proof fn lemma_bust_value(cards: Seq<Card>)
    requires
        low_sum(cards) > 21,
    ensures
        spec_hand_value(cards) == 0,
{
    assert(cards.len() > 0);
    lemma_reach_lower_bound(cards);
    lemma_reach_within_21(cards);
    let r = reachable_totals(cards);
    assert(forall|m: int| !is_max_of(m, r)) by {
        assert(forall|m: int| r.contains(m) ==> m >= low_sum(cards) && m <= 21);
    }
}

} // verus!
