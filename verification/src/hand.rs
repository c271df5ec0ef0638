use vstd::prelude::*;

use crate::cards::{card_points, is_ace, Card, CardValue, GameOutcome, HandValue};

verus! {

/// Sum of the cards' points, every ace counted as eleven.
pub open spec fn raw_total(hand: Seq<Card>) -> nat
    decreases hand.len(),
{
    if hand.len() == 0 {
        0
    } else {
        raw_total(hand.drop_last()) + card_points(hand.last().value)
    }
}

/// Number of aces in a hand.
pub open spec fn ace_count(hand: Seq<Card>) -> nat
    decreases hand.len(),
{
    if hand.len() == 0 {
        0
    } else {
        ace_count(hand.drop_last()) + if is_ace(hand.last().value) { 1nat } else { 0nat }
    }
}

/// How many aces must count as one instead of eleven: as many as it takes
/// to bring the total to 21 or below, but no more than there are aces.
pub open spec fn aces_lowered(total: nat, aces: nat) -> nat {
    if total <= 21 {
        0
    } else {
        let needed = ((total - 12) / 10) as nat;
        if needed <= aces { needed } else { aces }
    }
}

/// The value of a hand as a number before it is stored in a byte.
pub open spec fn best_total(hand: Seq<Card>) -> nat {
    (raw_total(hand) - 10 * aces_lowered(raw_total(hand), ace_count(hand))) as nat
}

/// The value of a hand.
pub open spec fn spec_hand_value(hand: Seq<Card>) -> HandValue {
    let t = raw_total(hand);
    let a = ace_count(hand);
    let k = aces_lowered(t, a);
    HandValue { count: (best_total(hand) % 256) as u8, is_soft: a > k }
}

/// A hand whose total, all aces counted as eleven, fits the 16-bit sum the value is computed in.
pub open spec fn hand_fits(hand: Seq<Card>) -> bool {
    raw_total(hand) <= u16::MAX
}

proof fn lemma_prefix_totals(hand: Seq<Card>, i: int)
    requires
        0 <= i <= hand.len(),
    ensures
        raw_total(hand.take(i)) <= raw_total(hand),
        ace_count(hand.take(i)) <= i,
    decreases hand.len(),
{
    if i == hand.len() {
        assert(hand.take(i) =~= hand);
        lemma_ace_count_le_len(hand);
    } else {
        assert(hand.drop_last().take(i) =~= hand.take(i));
        lemma_prefix_totals(hand.drop_last(), i);
    }
}

proof fn lemma_ace_count_le_len(hand: Seq<Card>)
    ensures
        ace_count(hand) <= hand.len(),
    decreases hand.len(),
{
    if hand.len() > 0 {
        lemma_ace_count_le_len(hand.drop_last());
    }
}

/// Computes the value of a hand: every ace counts as eleven, and then aces
/// count as one, one at a time, while the total is over 21.
pub fn hand_value(hand: &[Card]) -> (v: HandValue)
    requires
        hand_fits(hand@),
    ensures
        v == spec_hand_value(hand@),
        v.is_soft ==> v.count <= 21,
{
    let n = hand.len();
    let mut aces: usize = 0;
    let mut total: u16 = 0;
    let mut i: usize = 0;
    while i < n
        invariant
            n == hand@.len(),
            i <= n,
            hand_fits(hand@),
            total == raw_total(hand@.take(i as int)),
            aces == ace_count(hand@.take(i as int)),
        decreases n - i,
    {
        proof {
            assert(hand@.take(i + 1).drop_last() =~= hand@.take(i as int));
            lemma_prefix_totals(hand@, i + 1);
        }
        let card = hand[i];
        match card.value {
            CardValue::Number(p) => {
                total = total + p as u16;
            },
            CardValue::Ace => {
                total = total + 11;
                aces = aces + 1;
            },
            CardValue::Jack => {
                total = total + 10;
            },
            CardValue::Queen => {
                total = total + 10;
            },
            CardValue::King => {
                total = total + 10;
            },
        }
        i = i + 1;
    }
    assert(hand@.take(n as int) =~= hand@);
    let ghost t = raw_total(hand@);
    let ghost a = ace_count(hand@);
    let ghost mut k: nat = 0;
    while aces > 0 && total > 21
        invariant
            t == raw_total(hand@),
            a == ace_count(hand@),
            k <= aces_lowered(t, a),
            total == t - 10 * k,
            aces == a - k,
        decreases aces,
    {
        total = total - 10;
        aces = aces - 1;
        proof {
            k = k + 1;
        }
    }
    assert(k == aces_lowered(t, a));
    HandValue { count: (total % 256) as u8, is_soft: aces > 0 }
}

} // verus!

verus! {

/// Totals add up over a hand made of two parts.
pub proof fn lemma_totals_concat(a: Seq<Card>, b: Seq<Card>)
    ensures
        raw_total(a + b) == raw_total(a) + raw_total(b),
        ace_count(a + b) == ace_count(a) + ace_count(b),
    decreases b.len(),
{
    if b.len() == 0 {
        assert(a + b =~= a);
    } else {
        assert((a + b).drop_last() =~= a + b.drop_last());
        lemma_totals_concat(a, b.drop_last());
    }
}

proof fn lemma_totals_remove(s: Seq<Card>, j: int)
    requires
        0 <= j < s.len(),
    ensures
        raw_total(s) == raw_total(s.remove(j)) + card_points(s[j].value),
        ace_count(s) == ace_count(s.remove(j)) + if is_ace(s[j].value) { 1nat } else { 0nat },
{
    let pre = s.take(j);
    let post = s.skip(j + 1);
    assert(s =~= pre + seq![s[j]] + post);
    assert(s.remove(j) =~= pre + post);
    lemma_totals_concat(pre + seq![s[j]], post);
    lemma_totals_concat(pre, seq![s[j]]);
    lemma_totals_concat(pre, post);
    let one = seq![s[j]];
    assert(one.drop_last() =~= Seq::<Card>::empty());
    assert(one.last() == s[j]);
    assert(raw_total(one.drop_last()) == 0);
    assert(ace_count(one.drop_last()) == 0);
    assert(raw_total(one) == card_points(s[j].value));
    assert(ace_count(one) == if is_ace(s[j].value) { 1nat } else { 0nat });
}

proof fn lemma_totals_multiset(s1: Seq<Card>, s2: Seq<Card>)
    requires
        s1.to_multiset() == s2.to_multiset(),
    ensures
        raw_total(s1) == raw_total(s2),
        ace_count(s1) == ace_count(s2),
    decreases s1.len(),
{
    broadcast use vstd::seq_lib::group_to_multiset_ensures;

    if s1.len() == 0 {
        assert(s2.to_multiset().len() == 0);
        assert(s2 =~= Seq::<Card>::empty());
    } else {
        let x = s1.last();
        let rest = s1.drop_last();
        assert(s1 =~= rest.push(x));
        assert(s1.to_multiset().count(x) > 0);
        assert(s2.contains(x));
        let j = choose|j: int| 0 <= j < s2.len() && s2[j] == x;
        assert(rest.to_multiset() =~= s1.to_multiset().remove(x));
        assert(s2.remove(j).to_multiset() =~= s2.to_multiset().remove(x));
        lemma_totals_multiset(rest, s2.remove(j));
        lemma_totals_remove(s2, j);
    }
}

/// The value of a hand does not depend on the order of its cards: two hands
/// holding the same cards have the same value.
pub proof fn lemma_hand_value_order_free(a: Seq<Card>, b: Seq<Card>)
    requires
        a.to_multiset() == b.to_multiset(),
    ensures
        spec_hand_value(a) == spec_hand_value(b),
        hand_fits(a) == hand_fits(b),
{
    lemma_totals_multiset(a, b);
}

/// Putting one part of a hand before the other does not change its value.
pub proof fn lemma_hand_value_concat_commutes(a: Seq<Card>, b: Seq<Card>)
    ensures
        spec_hand_value(a + b) == spec_hand_value(b + a),
{
    lemma_totals_concat(a, b);
    lemma_totals_concat(b, a);
}

proof fn lemma_aces_in_total(hand: Seq<Card>)
    ensures
        raw_total(hand) >= 11 * ace_count(hand),
    decreases hand.len(),
{
    if hand.len() > 0 {
        lemma_aces_in_total(hand.drop_last());
    }
}

/// A soft hand counts between 11 and 21: an ace still counted as eleven is in
/// the count, and a hand is soft only while that keeps it at 21 or below.
pub proof fn lemma_soft_hand_range(hand: Seq<Card>)
    requires
        spec_hand_value(hand).is_soft,
    ensures
        11 <= best_total(hand) <= 21,
{
    lemma_aces_in_total(hand);
}

} // verus!

verus! {

/// A hand of two cards always fits the sum its value is computed in.
pub proof fn lemma_pair_fits(hand: Seq<Card>)
    requires
        hand.len() == 2,
    ensures
        hand_fits(hand),
{
    assert(hand.drop_last().drop_last() =~= Seq::<Card>::empty());
    assert(raw_total(hand.drop_last().drop_last()) == 0);
    lemma_card_points_bound(hand.last().value);
    lemma_card_points_bound(hand.drop_last().last().value);
    assert(raw_total(hand.drop_last()) <= 255);
}

proof fn lemma_card_points_bound(v: CardValue)
    ensures
        card_points(v) <= 255,
{
}

/// A blackjack: exactly two cards that count 21.
pub open spec fn spec_is_blackjack(hand: Seq<Card>) -> bool {
    hand.len() == 2 && spec_hand_value(hand).count == 21
}

/// Tells whether a hand is a blackjack: two cards counting 21.
pub fn is_blackjack(hand: &[Card]) -> (b: bool)
    ensures
        b == spec_is_blackjack(hand@),
        b == (hand@.len() == 2 && spec_hand_value(hand@).count == 21),
{
    if hand.len() == 2 {
        proof {
            lemma_pair_fits(hand@);
        }
        hand_value(hand).count == 21
    } else {
        false
    }
}

/// The outcome of comparing the player's count with the dealer's.
pub open spec fn outcome_by_count(player: u8, dealer: u8) -> GameOutcome {
    if player < dealer {
        GameOutcome::LoseByCount
    } else if player == dealer {
        GameOutcome::Push
    } else {
        GameOutcome::WinByCount
    }
}

pub open spec fn spec_resolve_hand(player_hand: Seq<Card>, dealer_hand: Seq<Card>) -> GameOutcome {
    outcome_by_count(spec_hand_value(player_hand).count, spec_hand_value(dealer_hand).count)
}

/// Decides a hand that neither side has busted or won by blackjack: the
/// higher count wins, equal counts push.
pub fn resolve_hand(player_hand: &[Card], dealer_hand: &[Card]) -> (outcome: GameOutcome)
    requires
        hand_fits(player_hand@),
        hand_fits(dealer_hand@),
    ensures
        outcome == spec_resolve_hand(player_hand@, dealer_hand@),
{
    let dv = hand_value(dealer_hand);
    let pv = hand_value(player_hand);
    if pv.count < dv.count {
        GameOutcome::LoseByCount
    } else if pv.count == dv.count {
        GameOutcome::Push
    } else {
        GameOutcome::WinByCount
    }
}

/// Swapping the two hands swaps winning and losing by count, and keeps a push.
pub proof fn lemma_resolve_hand_swaps(a: Seq<Card>, b: Seq<Card>)
    ensures
        spec_resolve_hand(a, b) == GameOutcome::WinByCount <==> spec_resolve_hand(b, a)
            == GameOutcome::LoseByCount,
        spec_resolve_hand(a, b) == GameOutcome::Push <==> spec_resolve_hand(b, a)
            == GameOutcome::Push,
{
}

/// The rank by which two cards are alike enough to be split: its points.
pub fn card_split_value(card: &CardValue) -> (r: u8)
    ensures
        r as nat == card_points(*card),
{
    match card {
        CardValue::Number(v) => *v,
        CardValue::Ace => 11,
        CardValue::Jack => 10,
        CardValue::Queen => 10,
        CardValue::King => 10,
    }
}

/// The dealer draws on 16 or less, and on a soft 17.
pub open spec fn spec_dealer_should_hit(dv: HandValue) -> bool {
    dv.count <= 16 || (dv.count <= 17 && dv.is_soft)
}

/// Tells whether the dealer, holding a hand of this value, takes another card.
pub fn dealer_should_hit(dv: HandValue) -> (b: bool)
    ensures
        b == spec_dealer_should_hit(dv),
{
    dv.count <= 16 || (dv.count <= 17 && dv.is_soft)
}

/// A hand over 21 is bust.
pub fn is_bust(hand: &[Card]) -> (b: bool)
    requires
        hand_fits(hand@),
    ensures
        b == (spec_hand_value(hand@).count > 21),
{
    hand_value(hand).count > 21
}

/// The outcome decided by the opening hands alone, when either is a blackjack.
pub open spec fn spec_opening_outcome(player_hand: Seq<Card>, dealer_hand: Seq<Card>) -> Option<
    GameOutcome,
> {
    match (spec_is_blackjack(player_hand), spec_is_blackjack(dealer_hand)) {
        (true, true) => Some(GameOutcome::Push),
        (true, false) => Some(GameOutcome::WinByBlackjack),
        (false, true) => Some(GameOutcome::LoseByBlackjack),
        (false, false) => None,
    }
}

/// Decides the hand at once when the player or the dealer holds a blackjack:
/// both is a push, the player's alone wins, the dealer's alone loses.
pub fn opening_outcome(player_hand: &[Card], dealer_hand: &[Card]) -> (o: Option<GameOutcome>)
    ensures
        o == spec_opening_outcome(player_hand@, dealer_hand@),
{
    let p = is_blackjack(player_hand);
    let d = is_blackjack(dealer_hand);
    if p && d {
        Some(GameOutcome::Push)
    } else if p {
        Some(GameOutcome::WinByBlackjack)
    } else if d {
        Some(GameOutcome::LoseByBlackjack)
    } else {
        None
    }
}

} // verus!

verus! {

/// Tells whether the hand's total, every ace counted as eleven, fits the
/// 16-bit sum that its value is computed in.
pub fn hand_total_fits(hand: &[Card]) -> (b: bool)
    ensures
        b == hand_fits(hand@),
{
    let n = hand.len();
    let mut total: u32 = 0;
    let mut i: usize = 0;
    while i < n
        invariant
            n == hand@.len(),
            i <= n,
            total == raw_total(hand@.take(i as int)),
            total <= u16::MAX,
        decreases n - i,
    {
        proof {
            assert(hand@.take(i + 1).drop_last() =~= hand@.take(i as int));
            lemma_card_points_bound(hand@[i as int].value);
        }
        let points = card_split_value(&hand[i].value);
        total = total + points as u32;
        if total > 65535 {
            proof {
                lemma_prefix_totals(hand@, i + 1);
            }
            return false;
        }
        i = i + 1;
    }
    assert(hand@.take(n as int) =~= hand@);
    true
}

} // verus!

verus! {

/// A hand is a blackjack exactly when it has two cards and its value counts
/// 21; which of the two cards comes first does not matter.
pub proof fn lemma_blackjack_law(a: Card, b: Card, hand: Seq<Card>)
    ensures
        spec_is_blackjack(hand) == (hand.len() == 2 && spec_hand_value(hand).count == 21),
        spec_is_blackjack(seq![a, b]) == spec_is_blackjack(seq![b, a]),
        (a.value is Ace && card_points(b.value) == 10) ==> spec_is_blackjack(seq![a, b])
            && spec_is_blackjack(seq![b, a]),
{
    lemma_hand_value_concat_commutes(seq![a], seq![b]);
    assert(seq![a] + seq![b] =~= seq![a, b]);
    assert(seq![b] + seq![a] =~= seq![b, a]);
    let h = seq![a, b];
    assert(h.drop_last() =~= seq![a]);
    assert(h.drop_last().drop_last() =~= Seq::<Card>::empty());
    assert(raw_total(h.drop_last().drop_last()) == 0);
    assert(ace_count(h.drop_last().drop_last()) == 0);
    assert(h.drop_last().last() == a);
    assert(h.last() == b);
    assert(raw_total(h.drop_last()) == card_points(a.value));
    assert(ace_count(h.drop_last()) == if is_ace(a.value) { 1nat } else { 0nat });
    if a.value is Ace && card_points(b.value) == 10 {
        assert(raw_total(h) == 21);
        assert(!is_ace(b.value));
        assert(ace_count(h) == 1);
    }
}

/// The dealer hits on any count of 16 or less, soft or hard, and on a soft
/// 17; the dealer stands on a hard 17 and on any count of 18 or more.
pub proof fn lemma_dealer_rule(v: HandValue)
    ensures
        v.count <= 16 ==> spec_dealer_should_hit(v),
        v.count == 17 ==> (spec_dealer_should_hit(v) <==> v.is_soft),
        v.count >= 18 ==> !spec_dealer_should_hit(v),
{
}

/// Comparing two hands: the player wins by count exactly when the player's
/// count is higher, pushes exactly when the counts are equal, and loses by
/// count exactly when it is lower; nothing else comes out.
pub proof fn lemma_resolve_hand_law(player: Seq<Card>, dealer: Seq<Card>)
    ensures
        (spec_resolve_hand(player, dealer) == GameOutcome::WinByCount) <==> spec_hand_value(
            player,
        ).count > spec_hand_value(dealer).count,
        (spec_resolve_hand(player, dealer) == GameOutcome::Push) <==> spec_hand_value(player).count
            == spec_hand_value(dealer).count,
        (spec_resolve_hand(player, dealer) == GameOutcome::LoseByCount) <==> spec_hand_value(
            player,
        ).count < spec_hand_value(dealer).count,
{
}

/// The value of a hand: every ace counts eleven, then aces count one, one at
/// a time, only while the total is over 21. So the number of aces counted as
/// one is the least that brings the total to 21 or below, or all of them; the
/// hand is soft exactly when some ace still counts eleven; and a hand whose
/// total, every ace counted eleven, is at most 21 counts just that.
pub proof fn lemma_hand_value_law(hand: Seq<Card>)
    requires
        hand_fits(hand),
    ensures
        ({
            let t = raw_total(hand);
            let a = ace_count(hand);
            let v = spec_hand_value(hand);
            exists|k: nat|
                #![trigger t - 10 * k]
                {
                    &&& k <= a
                    &&& 10 * k <= t
                    &&& v.count == (t - 10 * k) % 256
                    &&& (k > 0 ==> t - 10 * (k - 1) > 21)
                    &&& (k < a ==> t - 10 * k <= 21)
                    &&& v.is_soft == (k < a)
                }
        }),
        raw_total(hand) <= 21 ==> spec_hand_value(hand).count == raw_total(hand)
            && spec_hand_value(hand).is_soft == (ace_count(hand) > 0),
{
    lemma_aces_in_total(hand);
    let t = raw_total(hand);
    let a = ace_count(hand);
    let k = aces_lowered(t, a);
    assert(10 * k <= t);
    assert(spec_hand_value(hand).count == (t - 10 * k) % 256);
}

} // verus!

verus! {

/// Card points: a number card counts its number, an ace eleven (before any
/// ace counts one), and a jack, queen or king ten.
pub proof fn lemma_card_points_table(n: u8)
    ensures
        card_points(CardValue::Number(n)) == n,
        card_points(CardValue::Ace) == 11,
        card_points(CardValue::Jack) == 10,
        card_points(CardValue::Queen) == 10,
        card_points(CardValue::King) == 10,
        is_ace(CardValue::Ace),
        !is_ace(CardValue::Number(n)) && !is_ace(CardValue::Jack) && !is_ace(CardValue::Queen)
            && !is_ace(CardValue::King),
{
}

} // verus!
