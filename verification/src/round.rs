use vstd::prelude::*;

use crate::cards::{Card, GameOutcome};
use crate::hand::{
    dealer_should_hit, hand_fits, hand_total_fits, hand_value, resolve_hand,
    spec_dealer_should_hit, spec_hand_value, spec_resolve_hand,
};

verus! {

/// The outcome known before the dealer plays: the opening outcome, if any,
/// else a loss when the player's hand is over 21.
pub open spec fn spec_outcome_before_dealer(opening: Option<GameOutcome>, player_hand: Seq<Card>) -> Option<
    GameOutcome,
> {
    match opening {
        Some(o) => Some(o),
        None => if spec_hand_value(player_hand).count > 21 {
            Some(GameOutcome::LoseByBust)
        } else {
            None
        },
    }
}

/// Decides what is known before the dealer plays: an opening blackjack
/// outcome stands; otherwise the player loses by busting. The dealer plays
/// only when this gives nothing.
pub fn outcome_before_dealer(opening: Option<GameOutcome>, player_hand: &[Card]) -> (o: Option<
    GameOutcome,
>)
    requires
        hand_fits(player_hand@),
    ensures
        o == spec_outcome_before_dealer(opening, player_hand@),
{
    match opening {
        Some(o) => Some(o),
        None => if hand_value(player_hand).count > 21 {
            Some(GameOutcome::LoseByBust)
        } else {
            None
        },
    }
}

/// The outcome of a round: what was known before the dealer played, else a
/// win when the dealer busts, else the comparison of the scored hand with the
/// dealer's.
pub open spec fn spec_round_outcome(
    before: Option<GameOutcome>,
    scored_hand: Seq<Card>,
    dealer_hand: Seq<Card>,
) -> GameOutcome {
    match before {
        Some(o) => o,
        None => if spec_hand_value(dealer_hand).count > 21 {
            GameOutcome::WinByBust
        } else {
            spec_resolve_hand(scored_hand, dealer_hand)
        },
    }
}

/// Decides the round once the dealer has played.
pub fn round_outcome(before: Option<GameOutcome>, scored_hand: &[Card], dealer_hand: &[Card]) -> (o:
    GameOutcome)
    requires
        hand_fits(scored_hand@),
        hand_fits(dealer_hand@),
    ensures
        o == spec_round_outcome(before, scored_hand@, dealer_hand@),
{
    match before {
        Some(o) => o,
        None => if hand_value(dealer_hand).count > 21 {
            GameOutcome::WinByBust
        } else {
            resolve_hand(scored_hand, dealer_hand)
        },
    }
}

/// The dealer's hand after drawing the top `j` cards of the deck, in the
/// order they come off it.
pub open spec fn drawn_hand(deck: Seq<Card>, hand: Seq<Card>, j: int) -> Seq<Card> {
    hand + deck.skip(deck.len() - j).reverse()
}

/// The dealer can play the hand out: every hand met fits its sum, and the
/// deck has a card each time the dealer must draw.
pub open spec fn dealer_draws_ok(deck: Seq<Card>, hand: Seq<Card>) -> bool
    decreases deck.len(),
{
    hand_fits(hand) && (spec_dealer_should_hit(spec_hand_value(hand)) ==> deck.len() > 0
        && dealer_draws_ok(deck.drop_last(), hand.push(deck.last())))
}

proof fn lemma_drawn_hand_step(deck: Seq<Card>, hand: Seq<Card>, j: int)
    requires
        0 <= j < deck.len(),
    ensures
        drawn_hand(deck, hand, j + 1) == drawn_hand(deck, hand, j).push(deck[deck.len() - j - 1]),
        deck.take(deck.len() - j).last() == deck[deck.len() - j - 1],
        deck.take(deck.len() - j).drop_last() == deck.take(deck.len() - j - 1),
{
    let n = deck.len();
    assert(deck.skip(n - j - 1).reverse() =~= deck.skip(n - j).reverse().push(deck[n - j - 1]));
    assert(deck.take(n - j).drop_last() =~= deck.take(n - j - 1));
}

/// Tells whether the dealer can play the hand out with this deck.
pub fn dealer_can_finish(deck: &Vec<Card>, hand: &Vec<Card>) -> (b: bool)
    ensures
        b == dealer_draws_ok(deck@, hand@),
{
    let mut h: Vec<Card> = Vec::new();
    let mut t: usize = 0;
    while t < hand.len()
        invariant
            t <= hand@.len(),
            h@ == hand@.take(t as int),
        decreases hand@.len() - t,
    {
        h.push(hand[t]);
        proof {
            assert(hand@.take(t + 1) =~= hand@.take(t as int).push(hand@[t as int]));
        }
        t = t + 1;
    }
    proof {
        assert(hand@.take(hand@.len() as int) =~= hand@);
        assert(deck@.take(deck@.len() as int) =~= deck@);
    }
    let mut i: usize = deck.len();
    loop
        invariant
            i <= deck@.len(),
            dealer_draws_ok(deck@, hand@) == dealer_draws_ok(deck@.take(i as int), h@),
        decreases i,
    {
        if !hand_total_fits(h.as_slice()) {
            return false;
        }
        let v = hand_value(h.as_slice());
        if !dealer_should_hit(v) {
            return true;
        }
        if i == 0 {
            return false;
        }
        proof {
            let d = deck@.take(i as int);
            assert(d.last() == deck@[i - 1]);
            assert(d.drop_last() =~= deck@.take(i - 1));
        }
        h.push(deck[i - 1]);
        i = i - 1;
    }
}

/// The dealer's turn: while the dealer's rule says to hit, the top card of
/// the deck goes to the dealer. Returns the dealer's hand after each draw.
pub fn dealer_turn(deck: &mut Vec<Card>, dealer_hand: &mut Vec<Card>) -> (shown: Vec<Vec<Card>>)
    requires
        dealer_draws_ok(old(deck)@, old(dealer_hand)@),
    ensures
        ({
            let n = old(deck)@.len();
            let k = n - final(deck)@.len();
            &&& 0 <= k <= n
            &&& final(deck)@ == old(deck)@.take(n - k)
            &&& final(dealer_hand)@ == drawn_hand(old(deck)@, old(dealer_hand)@, k)
            &&& forall|j: int|
                0 <= j < k ==> spec_dealer_should_hit(
                    spec_hand_value(#[trigger] drawn_hand(old(deck)@, old(dealer_hand)@, j)),
                )
            &&& !spec_dealer_should_hit(spec_hand_value(final(dealer_hand)@))
            &&& shown@.len() == k
            &&& forall|j: int|
                0 <= j < k ==> (#[trigger] shown@[j])@ == drawn_hand(
                    old(deck)@,
                    old(dealer_hand)@,
                    j + 1,
                )
        }),
{
    let ghost d0 = deck@;
    let ghost h0 = dealer_hand@;
    let ghost n = d0.len();
    let mut shown: Vec<Vec<Card>> = Vec::new();
    let mut j: usize = 0;
    proof {
        assert(d0.take(n as int) =~= d0);
        assert(d0.skip(n as int).reverse() =~= Seq::<Card>::empty());
        assert(drawn_hand(d0, h0, 0) =~= h0);
    }
    loop
        invariant
            n == d0.len(),
            j <= n,
            deck@ == d0.take(n - j),
            dealer_hand@ == drawn_hand(d0, h0, j as int),
            dealer_draws_ok(deck@, dealer_hand@),
            forall|i: int|
                0 <= i < j ==> spec_dealer_should_hit(
                    spec_hand_value(#[trigger] drawn_hand(d0, h0, i)),
                ),
            shown@.len() == j,
            forall|i: int| 0 <= i < j ==> (#[trigger] shown@[i])@ == drawn_hand(d0, h0, i + 1),
        ensures
            n == d0.len(),
            j <= n,
            deck@ == d0.take(n - j),
            dealer_hand@ == drawn_hand(d0, h0, j as int),
            forall|i: int|
                0 <= i < j ==> spec_dealer_should_hit(
                    spec_hand_value(#[trigger] drawn_hand(d0, h0, i)),
                ),
            !spec_dealer_should_hit(spec_hand_value(dealer_hand@)),
            shown@.len() == j,
            forall|i: int| 0 <= i < j ==> (#[trigger] shown@[i])@ == drawn_hand(d0, h0, i + 1),
        decreases n - j,
    {
        let v = hand_value(dealer_hand.as_slice());
        if !dealer_should_hit(v) {
            break;
        }
        proof {
            lemma_drawn_hand_step(d0, h0, j as int);
        }
        let card = deck.pop().unwrap();
        dealer_hand.push(card);
        let mut copy: Vec<Card> = Vec::new();
        let mut t: usize = 0;
        while t < dealer_hand.len()
            invariant
                t <= dealer_hand@.len(),
                copy@ == dealer_hand@.take(t as int),
            decreases dealer_hand@.len() - t,
        {
            copy.push(dealer_hand[t]);
            proof {
                assert(dealer_hand@.take(t + 1) =~= dealer_hand@.take(t as int).push(
                    dealer_hand@[t as int],
                ));
            }
            t = t + 1;
        }
        proof {
            assert(dealer_hand@.take(dealer_hand@.len() as int) =~= dealer_hand@);
        }
        shown.push(copy);
        j = j + 1;
    }
    shown
}

} // verus!

verus! {

/// Before the dealer plays: an opening outcome stands as it is; otherwise the
/// player has lost by busting exactly when the player's count is over 21, and
/// nothing is decided yet when it is 21 or less.
pub proof fn lemma_outcome_before_dealer_law(opening: Option<GameOutcome>, player_hand: Seq<Card>)
    ensures
        opening is Some ==> spec_outcome_before_dealer(opening, player_hand) == opening,
        opening is None ==> (spec_outcome_before_dealer(opening, player_hand) == Some(
            GameOutcome::LoseByBust,
        ) <==> spec_hand_value(player_hand).count > 21),
        opening is None ==> (spec_outcome_before_dealer(opening, player_hand) is None
            <==> spec_hand_value(player_hand).count <= 21),
{
}

/// The outcome of a round: what was decided before the dealer played stands;
/// otherwise the player wins by the dealer's bust exactly when the dealer's
/// count is over 21, and when it is 21 or less the higher count wins and equal
/// counts push.
pub proof fn lemma_round_outcome_law(before: Option<GameOutcome>, scored: Seq<Card>, dealer: Seq<Card>)
    ensures
        before matches Some(o) ==> spec_round_outcome(before, scored, dealer) == o,
        before is None ==> (spec_round_outcome(before, scored, dealer) == GameOutcome::WinByBust
            <==> spec_hand_value(dealer).count > 21),
        (before is None && spec_hand_value(dealer).count <= 21) ==> {
            let p = spec_hand_value(scored).count;
            let d = spec_hand_value(dealer).count;
            &&& (spec_round_outcome(before, scored, dealer) == GameOutcome::WinByCount <==> p > d)
            &&& (spec_round_outcome(before, scored, dealer) == GameOutcome::Push <==> p == d)
            &&& (spec_round_outcome(before, scored, dealer) == GameOutcome::LoseByCount <==> p < d)
        },
{
}

} // verus!
