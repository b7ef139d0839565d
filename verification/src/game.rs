//! The decision rules of the game loop: parsing the player's typed commands,
//! the player-turn state, the dealer's fixed policy, and outcome resolution.
//! The surrounding loop performs the reading, printing and drawing and feeds
//! plain values in and out.

use vstd::prelude::*;

use crate::deck::Deck;
use crate::hand::{spec_hand_value, Hand};

verus! {

/// What the player asked for during their turn.
#[derive(Clone, Copy, PartialEq, Eq, Structural, Debug)]
pub enum Choice {
    Hit,
    Stand,
    Invalid,
}

/// Whether another round follows.
#[derive(Clone, Copy, PartialEq, Eq, Structural, Debug)]
pub enum Replay {
    Again,
    Quit,
}

/// Where the player's turn stands after a draw.
#[derive(Clone, Copy, PartialEq, Eq, Structural, Debug)]
pub enum PlayerState {
    /// Worth 21 from exactly two cards: the round ends decisively.
    Blackjack,
    /// Worth 21 from three or more cards: the player stands automatically.
    TwentyOne,
    /// Every combination busted: the round ends decisively, a loss.
    Busted,
    /// The player chooses to hit or stand.
    Choosing,
}

/// What the dealer's fixed policy does at a given hand value.
#[derive(Clone, Copy, PartialEq, Eq, Structural, Debug)]
pub enum DealerAction {
    /// The dealer busted: the player wins.
    Busted,
    /// Below 17: the dealer draws one card.
    Draw,
    /// 17 or more: the dealer stands and the hands are compared.
    Stand,
}

/// How a finished round came out for the player.
#[derive(Clone, Copy, PartialEq, Eq, Structural, Debug)]
pub enum Outcome {
    PlayerWins,
    DealerWins,
    Push,
}

/// An ASCII whitespace byte, as trimmed from a typed line.
pub open spec fn spec_is_space(b: u8) -> bool {
    b == 32 || b == 9 || b == 10 || b == 13 || b == 11 || b == 12
}

/// An upper-case ASCII letter lowered, any other byte unchanged.
pub open spec fn spec_lower_byte(b: u8) -> u8 {
    if 65 <= b && b <= 90 {
        (b + 32) as u8
    } else {
        b
    }
}

/// Every byte of the line lowered.
pub open spec fn spec_lower(s: Seq<u8>) -> Seq<u8> {
    s.map_values(|b: u8| spec_lower_byte(b))
}

/// The line with its leading whitespace dropped.
pub open spec fn spec_trim_front(s: Seq<u8>) -> Seq<u8>
    decreases s.len(),
{
    if s.len() > 0 && spec_is_space(s[0]) {
        spec_trim_front(s.drop_first())
    } else {
        s
    }
}

/// The line with its trailing whitespace dropped.
pub open spec fn spec_trim_back(s: Seq<u8>) -> Seq<u8>
    decreases s.len(),
{
    if s.len() > 0 && spec_is_space(s.last()) {
        spec_trim_back(s.drop_last())
    } else {
        s
    }
}

/// The line with whitespace dropped at both ends.
pub open spec fn spec_trim(s: Seq<u8>) -> Seq<u8> {
    spec_trim_back(spec_trim_front(s))
}

/// The token a typed line normalizes to: lowered, then trimmed.
pub open spec fn spec_token(s: Seq<u8>) -> Seq<u8> {
    spec_trim(spec_lower(s))
}

/// The hit/stand command a normalized token stands for: "1", "hit", "h" and
/// the empty line ask for a card; "2", "stand" and "s" stand; anything else
/// is rejected.
pub open spec fn spec_choice_of_token(t: Seq<u8>) -> Choice {
    if t == Seq::<u8>::empty() || t == seq![49u8] || t == seq![104u8] || t == seq![
        104u8,
        105u8,
        116u8,
    ] {
        Choice::Hit
    } else if t == seq![50u8] || t == seq![115u8] || t == seq![
        115u8,
        116u8,
        97u8,
        110u8,
        100u8,
    ] {
        Choice::Stand
    } else {
        Choice::Invalid
    }
}

/// The hit/stand command a typed line stands for, case-insensitively and
/// ignoring surrounding whitespace.
pub open spec fn spec_parse_choice(s: Seq<u8>) -> Choice {
    spec_choice_of_token(spec_token(s))
}

/// The play-again answer a normalized token stands for: "y", "yes" and the
/// empty line continue; anything else quits.
pub open spec fn spec_replay_of_token(t: Seq<u8>) -> Replay {
    if t == Seq::<u8>::empty() || t == seq![121u8] || t == seq![121u8, 101u8, 115u8] {
        Replay::Again
    } else {
        Replay::Quit
    }
}

/// The play-again answer a typed line stands for.
pub open spec fn spec_parse_replay(s: Seq<u8>) -> Replay {
    spec_replay_of_token(spec_token(s))
}

/// The player-turn state at a given hand value and card count.
pub open spec fn spec_player_state(value: int, n_cards: int) -> PlayerState {
    if value == 21 && n_cards == 2 {
        PlayerState::Blackjack
    } else if value == 21 {
        PlayerState::TwentyOne
    } else if value == 0 {
        PlayerState::Busted
    } else {
        PlayerState::Choosing
    }
}

/// The dealer's fixed policy at a given hand value: busted at 0, a draw
/// below 17, a stand at 17 or more.
pub open spec fn spec_dealer_action(value: int) -> DealerAction {
    if value == 0 {
        DealerAction::Busted
    } else if value < 17 {
        DealerAction::Draw
    } else {
        DealerAction::Stand
    }
}

/// The outcome when the dealer stands: the higher value wins, equal values
/// push.
pub open spec fn spec_outcome(dealer: int, player: int) -> Outcome {
    if dealer > player {
        Outcome::DealerWins
    } else if dealer < player {
        Outcome::PlayerWins
    } else {
        Outcome::Push
    }
}

fn is_space(b: u8) -> (r: bool)
    ensures
        r == spec_is_space(b),
{
    b == 32 || b == 9 || b == 10 || b == 13 || b == 11 || b == 12
}

fn lower_byte(b: u8) -> (r: u8)
    ensures
        r == spec_lower_byte(b),
{
    if 65 <= b && b <= 90 {
        b + 32
    } else {
        b
    }
}

/// Lowers a typed line and trims whitespace from both ends: the normalized
/// token the command vocabulary is matched against.
pub fn normalize(line: &[u8]) -> (r: Vec<u8>)
    ensures
        r@ == spec_token(line@),
{
    let mut low: Vec<u8> = Vec::new();
    let mut i: usize = 0;
    while i < line.len()
        invariant
            i <= line@.len(),
            low@.len() == i,
            forall|k: int| 0 <= k < i ==> low@[k] == spec_lower_byte(line@[k]),
        decreases line@.len() - i,
    {
        low.push(lower_byte(line[i]));
        i = i + 1;
    }
    proof {
        assert(low@ =~= spec_lower(line@));
    }
    let ghost l = low@;
    proof {
        assert(l.skip(0) =~= l);
    }
    let mut start: usize = 0;
    while start < low.len() && is_space(low[start])
        invariant
            start <= l.len(),
            low@ == l,
            forall|k: int| 0 <= k < start ==> spec_is_space(l[k]),
            spec_trim_front(l) == spec_trim_front(l.skip(start as int)),
        decreases l.len() - start,
    {
        proof {
            assert(l.skip(start as int)[0] == l[start as int]);
            assert(l.skip(start as int).drop_first() =~= l.skip(start as int + 1));
        }
        start = start + 1;
    }
    proof {
        if start < l.len() {
            assert(l.skip(start as int)[0] == l[start as int]);
            assert(spec_trim_front(l.skip(start as int)) == l.skip(start as int));
        } else {
            assert(l.skip(start as int) =~= Seq::<u8>::empty());
        }
        assert(spec_trim_front(l) == l.skip(start as int));
        assert(l.skip(start as int) =~= l.subrange(start as int, l.len() as int));
    }
    let mut end: usize = low.len();
    while end > start && is_space(low[end - 1])
        invariant
            start <= end <= l.len(),
            low@ == l,
            spec_trim_back(l.subrange(start as int, l.len() as int)) == spec_trim_back(
                l.subrange(start as int, end as int),
            ),
        decreases end,
    {
        proof {
            let cur = l.subrange(start as int, end as int);
            assert(cur.last() == l[end - 1]);
            assert(cur.drop_last() =~= l.subrange(start as int, end as int - 1));
        }
        end = end - 1;
    }
    proof {
        let cur = l.subrange(start as int, end as int);
        if end > start {
            assert(cur.last() == l[end - 1]);
            assert(spec_trim_back(cur) == cur);
        } else {
            assert(cur =~= Seq::<u8>::empty());
            assert(spec_trim_back(cur) == cur);
        }
        assert(spec_token(line@) == l.subrange(start as int, end as int));
    }
    let mut out: Vec<u8> = Vec::new();
    let mut i: usize = start;
    while i < end
        invariant
            start <= i <= end <= l.len(),
            low@ == l,
            out@.len() == i - start,
            forall|k: int| 0 <= k < out@.len() ==> out@[k] == l[start + k],
        decreases end - i,
    {
        out.push(low[i]);
        i = i + 1;
    }
    proof {
        assert(out@ =~= l.subrange(start as int, end as int));
    }
    out
}

/// Parses the player's hit/stand command from a typed line: a small
/// case-insensitive vocabulary with the empty line defaulting to a hit;
/// anything unrecognized is rejected for a re-prompt.
pub fn parse_choice(line: &[u8]) -> (c: Choice)
    ensures
        c == spec_parse_choice(line@),
{
    let t = normalize(line);
    let ghost tok = t@;
    if t.len() == 0 {
        proof {
            assert(tok =~= Seq::<u8>::empty());
        }
        Choice::Hit
    } else if t.len() == 1 {
        let b = t[0];
        proof {
            assert(tok =~= seq![tok[0]]);
        }
        if b == 49 || b == 104 {
            Choice::Hit
        } else if b == 50 || b == 115 {
            Choice::Stand
        } else {
            proof {
                lemma_singleton_differs(tok, 49u8);
                lemma_singleton_differs(tok, 104u8);
                lemma_singleton_differs(tok, 50u8);
                lemma_singleton_differs(tok, 115u8);
            }
            Choice::Invalid
        }
    } else if t.len() == 3 && t[0] == 104 && t[1] == 105 && t[2] == 116 {
        proof {
            assert(tok =~= seq![104u8, 105u8, 116u8]);
        }
        Choice::Hit
    } else if t.len() == 5 && t[0] == 115 && t[1] == 116 && t[2] == 97 && t[3] == 110 && t[4]
        == 100 {
        proof {
            assert(tok =~= seq![115u8, 116u8, 97u8, 110u8, 100u8]);
        }
        Choice::Stand
    } else {
        proof {
            lemma_token_invalid_choice(tok);
        }
        Choice::Invalid
    }
}

/// Parses the play-again answer from a typed line: "y", "yes" or an empty
/// line continues, anything else is treated as declining.
pub fn parse_replay(line: &[u8]) -> (r: Replay)
    ensures
        r == spec_parse_replay(line@),
{
    let t = normalize(line);
    let ghost tok = t@;
    if t.len() == 0 {
        proof {
            assert(tok =~= Seq::<u8>::empty());
        }
        Replay::Again
    } else if t.len() == 1 && t[0] == 121 {
        proof {
            assert(tok =~= seq![121u8]);
        }
        Replay::Again
    } else if t.len() == 3 && t[0] == 121 && t[1] == 101 && t[2] == 115 {
        proof {
            assert(tok =~= seq![121u8, 101u8, 115u8]);
        }
        Replay::Again
    } else {
        proof {
            if tok.len() == 1 {
                lemma_singleton_differs(tok, 121u8);
            }
            if tok == seq![121u8, 101u8, 115u8] {
                assert(tok[0] == 121 && tok[1] == 101 && tok[2] == 115);
            }
        }
        Replay::Quit
    }
}

/// A one-byte token that is not `b` differs from the one-byte word of `b`.
proof fn lemma_singleton_differs(t: Seq<u8>, b: u8)
    requires
        t.len() == 1,
        t[0] != b,
    ensures
        t != seq![b],
{
    assert(seq![b][0] == b);
}

/// A token that matches none of the six command words parses as invalid.
proof fn lemma_token_invalid_choice(t: Seq<u8>)
    requires
        t.len() >= 2,
        t.len() == 3 ==> !(t[0] == 104 && t[1] == 105 && t[2] == 116),
        t.len() == 5 ==> !(t[0] == 115 && t[1] == 116 && t[2] == 97 && t[3] == 110 && t[4] == 100),
    ensures
        spec_choice_of_token(t) == Choice::Invalid,
{
    if t == seq![104u8, 105u8, 116u8] {
        assert(t[0] == 104 && t[1] == 105 && t[2] == 116);
    }
    if t == seq![115u8, 116u8, 97u8, 110u8, 100u8] {
        assert(t[0] == 115 && t[1] == 116 && t[2] == 97 && t[3] == 110 && t[4] == 100);
    }
    assert(t.len() != 0 && t.len() != 1);
}

/// Where the player's turn stands: blackjack and 21 end the drawing, a bust
/// ends the round, anything else asks the player to choose.
pub fn player_state(hand: &Hand) -> (s: PlayerState)
    ensures
        s == spec_player_state(spec_hand_value(hand@), hand@.len() as int),
{
    let v = hand.value();
    if v == 21 {
        if hand.is_blackjack() {
            PlayerState::Blackjack
        } else {
            PlayerState::TwentyOne
        }
    } else if v == 0 {
        PlayerState::Busted
    } else {
        PlayerState::Choosing
    }
}

/// The dealer's fixed move at their current hand value.
pub fn dealer_action(hand: &Hand) -> (a: DealerAction)
    ensures
        a == spec_dealer_action(spec_hand_value(hand@)),
{
    let v = hand.value();
    if v == 0 {
        DealerAction::Busted
    } else if v < 17 {
        DealerAction::Draw
    } else {
        DealerAction::Stand
    }
}

/// Compares the two standing hands.
pub fn resolve(dealer_value: u8, player_value: u8) -> (o: Outcome)
    ensures
        o == spec_outcome(dealer_value as int, player_value as int),
{
    if dealer_value > player_value {
        Outcome::DealerWins
    } else if dealer_value < player_value {
        Outcome::PlayerWins
    } else {
        Outcome::Push
    }
}

/// Deals the opening hands from the top of the deck: two cards each,
/// strictly alternating, the player first.
pub fn initial_deal(deck: &mut Deck) -> (hands: (Hand, Hand))
    requires
        old(deck)@.len() >= 4,
    ensures
        final(deck)@ == old(deck)@.take(old(deck)@.len() - 4),
        hands.0@ == seq![
            old(deck)@[old(deck)@.len() - 1],
            old(deck)@[old(deck)@.len() - 3],
        ],
        hands.1@ == seq![
            old(deck)@[old(deck)@.len() - 2],
            old(deck)@[old(deck)@.len() - 4],
        ],
{
    let ghost d0 = deck@;
    let mut player = Hand::new();
    let mut dealer = Hand::new();
    let c1 = deck.deal().unwrap();
    let c2 = deck.deal().unwrap();
    let c3 = deck.deal().unwrap();
    let c4 = deck.deal().unwrap();
    player.add_card(c1);
    dealer.add_card(c2);
    player.add_card(c3);
    dealer.add_card(c4);
    proof {
        assert(deck@ =~= d0.take(d0.len() - 4));
        assert(player@ =~= seq![d0[d0.len() - 1], d0[d0.len() - 3]]);
        assert(dealer@ =~= seq![d0[d0.len() - 2], d0[d0.len() - 4]]);
    }
    (player, dealer)
}

/// The dealer's policy is deterministic in the hand value alone: at any
/// standing value of 17 or more the dealer never draws, and at any live
/// value below 17 the dealer always draws exactly one more card.
pub proof fn lemma_dealer_policy_deterministic()
    ensures
        forall|v: int| 17 <= v ==> spec_dealer_action(v) == DealerAction::Stand,
        forall|v: int| 1 <= v < 17 ==> spec_dealer_action(v) == DealerAction::Draw,
        spec_dealer_action(0) == DealerAction::Busted,
{
}

} // verus!
