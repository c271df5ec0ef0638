use vstd::prelude::*;

use rand::seq::SliceRandom;

use crate::cards::{Card, CardValue, Suit};

verus! {

/// The suit of the `i`-th block of the standard deck.
pub open spec fn suit_at(i: int) -> Suit {
    if i == 0 {
        Suit::Hearts
    } else if i == 1 {
        Suit::Diamonds
    } else if i == 2 {
        Suit::Spades
    } else {
        Suit::Clubs
    }
}

/// The value of the `j`-th card within a suit of the standard deck.
pub open spec fn value_at(j: int) -> CardValue {
    if j < 10 {
        CardValue::Number((j + 1) as u8)
    } else if j == 10 {
        CardValue::Ace
    } else if j == 11 {
        CardValue::Jack
    } else if j == 12 {
        CardValue::Queen
    } else {
        CardValue::King
    }
}

/// The standard deck, in the order it is built: hearts, diamonds, spades,
/// clubs; in each suit the numbers one to ten, then ace, jack, queen, king.
pub open spec fn standard_deck() -> Seq<Card> {
    Seq::new(56, |i: int| Card { value: value_at(i % 14), suit: suit_at(i / 14) })
}

/// A card that the standard deck holds.
pub open spec fn is_standard_card(c: Card) -> bool {
    match c.value {
        CardValue::Number(n) => 1 <= n <= 10,
        _ => true,
    }
}

fn suit_of_index(i: usize) -> (s: Suit)
    requires
        i < 4,
    ensures
        s == suit_at(i as int),
{
    if i == 0 {
        Suit::Hearts
    } else if i == 1 {
        Suit::Diamonds
    } else if i == 2 {
        Suit::Spades
    } else {
        Suit::Clubs
    }
}

/// Builds the standard deck in order.
pub fn create_deck() -> (cards: Vec<Card>)
    ensures
        cards@ == standard_deck(),
{
    let mut cards: Vec<Card> = Vec::with_capacity(52);
    let mut s: usize = 0;
    while s < 4
        invariant
            s <= 4,
            cards@ =~= standard_deck().take(14 * s as int),
        decreases 4 - s,
    {
        let suit = suit_of_index(s);
        let mut value: u8 = 1;
        while value <= 10
            invariant
                s < 4,
                1 <= value <= 11,
                suit == suit_at(s as int),
                cards@ =~= standard_deck().take(14 * s + value - 1),
            decreases 11 - value,
        {
            cards.push(Card { value: CardValue::Number(value), suit });
            value = value + 1;
        }
        cards.push(Card { value: CardValue::Ace, suit });
        cards.push(Card { value: CardValue::Jack, suit });
        cards.push(Card { value: CardValue::Queen, suit });
        cards.push(Card { value: CardValue::King, suit });
        s = s + 1;
    }
    cards
}

} // verus!

verus! {

/// The standard deck holds 56 cards, no card twice, and exactly the standard
/// cards: every suit with the numbers one to ten, ace, jack, queen and king.
pub proof fn lemma_standard_deck_cards()
    ensures
        standard_deck().len() == 56,
        standard_deck().no_duplicates(),
        forall|c: Card| standard_deck().contains(c) <==> is_standard_card(c),
{
    let d = standard_deck();
    assert forall|i: int, j: int| 0 <= i < d.len() && 0 <= j < d.len() && i != j implies d[i]
        != d[j] by {
        if i / 14 != j / 14 {
            assert(suit_at(i / 14) != suit_at(j / 14));
        } else {
            assert(i % 14 != j % 14);
            assert(value_at(i % 14) != value_at(j % 14));
        }
    }
    assert forall|c: Card| d.contains(c) <==> is_standard_card(c) by {
        if is_standard_card(c) {
            let si: int = match c.suit {
                Suit::Hearts => 0,
                Suit::Diamonds => 1,
                Suit::Spades => 2,
                Suit::Clubs => 3,
            };
            let vi: int = match c.value {
                CardValue::Number(n) => n - 1,
                CardValue::Ace => 10,
                CardValue::Jack => 11,
                CardValue::Queen => 12,
                CardValue::King => 13,
            };
            let k = 14 * si + vi;
            assert(k / 14 == si && k % 14 == vi);
            assert(d[k] == c);
        }
        if d.contains(c) {
            let k = choose|k: int| 0 <= k < d.len() && d[k] == c;
            assert(0 <= k % 14 < 14);
        }
    }
}

} // verus!

verus! {

/// Shuffles the cards in place with `rand::seq::SliceRandom::shuffle`, drawing
/// on the thread-local generator `rand::rng()`. Trusted: the shuffle only
/// swaps cards, so the deck afterwards holds the same cards as before. Which
/// order comes out is left unsaid: it is chosen at random. Left unsaid too:
/// `rand::rng()` panics if the operating system gives no randomness to seed it.
#[verifier::external_body]
fn shuffle_cards(deck: &mut Vec<Card>)
    ensures
        final(deck)@.len() == old(deck)@.len(),
        final(deck)@.to_multiset() == old(deck)@.to_multiset(),
{
    deck.shuffle(&mut rand::rng());
}

/// The cards a shuffled deck is made from: the deck given, or else the standard deck.
pub open spec fn deck_to_shuffle(deck: Option<Vec<Card>>) -> Seq<Card> {
    match deck {
        Some(d) => d@,
        None => standard_deck(),
    }
}

/// Shuffles the given deck, or a new standard deck when none is given.
/// The result holds exactly the same cards, in a random order.
pub fn get_deck_shuffled(deck: Option<Vec<Card>>) -> (shuffled: Vec<Card>)
    ensures
        shuffled@.len() == deck_to_shuffle(deck).len(),
        shuffled@.to_multiset() == deck_to_shuffle(deck).to_multiset(),
{
    let mut cards = match deck {
        Some(d) => d,
        None => create_deck(),
    };
    shuffle_cards(&mut cards);
    cards
}

/// Draws the top card (the last one) of the deck, replacing an empty deck by
/// a freshly shuffled standard deck first.
fn deal_card(deck: &mut Vec<Card>) -> (card: Card)
    ensures
        old(deck)@.len() > 0 ==> card == old(deck)@.last() && final(deck)@ == old(
            deck,
        )@.drop_last(),
        old(deck)@.len() == 0 ==> final(deck)@.push(card).to_multiset()
            == standard_deck().to_multiset(),
{
    if deck.len() == 0 {
        *deck = get_deck_shuffled(None);
    }
    proof {
        lemma_standard_deck_cards();
    }
    let ghost full = deck@;
    let card = deck.pop().unwrap();
    proof {
        assert(deck@.push(card) =~= full);
    }
    card
}

} // verus!

verus! {

/// `dealt` are the cards drawn one by one from the top (the end) of
/// `old_deck`, leaving `new_deck`. When the deck runs out, a freshly shuffled
/// standard deck takes its place: then the cards drawn from it, put back on
/// top of what is left, are a full standard deck in some order.
pub open spec fn dealt_from(old_deck: Seq<Card>, dealt: Seq<Card>, new_deck: Seq<Card>) -> bool {
    let n = old_deck.len();
    if dealt.len() <= n {
        &&& dealt == old_deck.skip(n - dealt.len()).reverse()
        &&& new_deck == old_deck.take(n - dealt.len())
    } else {
        &&& dealt.take(n as int) == old_deck.reverse()
        &&& (new_deck + dealt.skip(n as int).reverse()).to_multiset()
            == standard_deck().to_multiset()
    }
}

proof fn lemma_dealt_from_start(deck: Seq<Card>)
    ensures
        dealt_from(deck, Seq::empty(), deck),
{
    assert(deck.skip(deck.len() as int).reverse() =~= Seq::<Card>::empty());
    assert(deck.take(deck.len() as int) =~= deck);
}

proof fn lemma_dealt_from_step(
    old_deck: Seq<Card>,
    dealt: Seq<Card>,
    deck: Seq<Card>,
    card: Card,
    next: Seq<Card>,
)
    requires
        dealt.len() < 56,
        dealt_from(old_deck, dealt, deck),
        deck.len() > 0 ==> card == deck.last() && next == deck.drop_last(),
        deck.len() == 0 ==> next.push(card).to_multiset() == standard_deck().to_multiset(),
    ensures
        dealt_from(old_deck, dealt.push(card), next),
{
    broadcast use vstd::seq_lib::group_to_multiset_ensures;

    lemma_standard_deck_cards();
    let n = old_deck.len();
    let m = dealt.len();
    let d2 = dealt.push(card);
    if m < n {
        assert(deck.len() == n - m);
        assert(d2 =~= old_deck.skip(n - m - 1).reverse());
        assert(next =~= old_deck.take(n - m - 1));
        assert(dealt_from(old_deck, d2, next));
    } else if m == n {
        assert(old_deck.skip(0) =~= old_deck);
        assert(deck.len() == 0);
        assert(d2.take(n as int) =~= dealt);
        assert(d2.skip(n as int).reverse() =~= seq![card]);
        assert(next + seq![card] =~= next.push(card));
        assert(dealt_from(old_deck, d2, next));
    } else {
        let rest = dealt.skip(n as int).reverse();
        assert((deck + rest).to_multiset().len() == 56);
        assert(deck.len() + rest.len() == 56);
        assert(deck.len() > 0);
        assert(d2.take(n as int) =~= dealt.take(n as int));
        assert(d2.skip(n as int).reverse() =~= seq![card] + rest);
        assert(next + (seq![card] + rest) =~= deck + rest);
        assert(dealt_from(old_deck, d2, next));
    }
}

/// The cards dealt at the start of a hand: the player's two new cards, then the dealer's.
pub open spec fn opening_cards(
    player_before: Seq<Card>,
    player_after: Seq<Card>,
    dealer_before: Seq<Card>,
    dealer_after: Seq<Card>,
) -> Seq<Card> {
    player_after.skip(player_before.len() as int) + dealer_after.skip(dealer_before.len() as int)
}

/// Deals two cards to the player, then two to the dealer, each from the top
/// of the deck; an empty deck is replaced by a freshly shuffled standard deck.
pub fn initial_deal(deck: &mut Vec<Card>, player_hand: &mut Vec<Card>, dealer_hand: &mut Vec<Card>)
    ensures
        final(player_hand)@.len() == old(player_hand)@.len() + 2,
        final(dealer_hand)@.len() == old(dealer_hand)@.len() + 2,
        final(player_hand)@.take(old(player_hand)@.len() as int) == old(player_hand)@,
        final(dealer_hand)@.take(old(dealer_hand)@.len() as int) == old(dealer_hand)@,
        dealt_from(
            old(deck)@,
            opening_cards(old(player_hand)@, final(player_hand)@, old(dealer_hand)@, final(dealer_hand)@),
            final(deck)@,
        ),
{
    let ghost start = deck@;
    let ghost p0 = player_hand@;
    let ghost d0 = dealer_hand@;
    let ghost mut dealt: Seq<Card> = Seq::empty();
    proof {
        lemma_dealt_from_start(start);
    }
    let mut i: usize = 0;
    while i < 2
        invariant
            i <= 2,
            dealt.len() == i,
            player_hand@ == p0 + dealt,
            dealer_hand@ == d0,
            dealt_from(start, dealt, deck@),
        decreases 2 - i,
    {
        let ghost before = deck@;
        let card = deal_card(deck);
        proof {
            lemma_dealt_from_step(start, dealt, before, card, deck@);
            dealt = dealt.push(card);
        }
        player_hand.push(card);
        i = i + 1;
    }
    let ghost to_player = dealt;
    let mut j: usize = 0;
    while j < 2
        invariant
            j <= 2,
            to_player.len() == 2,
            dealt.len() == 2 + j,
            dealt.take(2) == to_player,
            player_hand@ == p0 + to_player,
            dealer_hand@ == d0 + dealt.skip(2),
            dealt_from(start, dealt, deck@),
        decreases 2 - j,
    {
        let ghost before = deck@;
        let card = deal_card(deck);
        proof {
            lemma_dealt_from_step(start, dealt, before, card, deck@);
            assert(dealt.push(card).take(2) =~= dealt.take(2));
            assert(dealt.push(card).skip(2) =~= dealt.skip(2).push(card));
            dealt = dealt.push(card);
        }
        dealer_hand.push(card);
        j = j + 1;
    }
    proof {
        assert(player_hand@.skip(p0.len() as int) =~= to_player);
        assert(dealer_hand@.skip(d0.len() as int) =~= dealt.skip(2));
        assert(to_player + dealt.skip(2) =~= dealt);
        assert(player_hand@.take(p0.len() as int) =~= p0);
        assert(dealer_hand@.take(d0.len() as int) =~= d0);
    }
}

} // verus!

verus! {

/// Dealing moves cards and never makes or loses one: the cards dealt and the
/// deck left hold the cards of the deck before, plus those of a fresh standard
/// deck when the deck ran out.
pub proof fn lemma_dealing_keeps_cards(old_deck: Seq<Card>, dealt: Seq<Card>, new_deck: Seq<Card>)
    requires
        dealt_from(old_deck, dealt, new_deck),
    ensures
        dealt.len() <= old_deck.len() ==> (new_deck + dealt).to_multiset()
            == old_deck.to_multiset(),
        dealt.len() > old_deck.len() ==> (new_deck + dealt).to_multiset() == (old_deck
            + standard_deck()).to_multiset(),
{
    broadcast use vstd::seq_lib::lemma_multiset_commutative;
    broadcast use vstd::multiset::group_multiset_axioms;

    let n = old_deck.len();
    if dealt.len() <= n {
        let k = n - dealt.len();
        old_deck.skip(k).lemma_reverse_to_multiset();
        assert(old_deck =~= old_deck.take(k) + old_deck.skip(k));
    } else {
        let tail = dealt.skip(n as int);
        tail.lemma_reverse_to_multiset();
        old_deck.lemma_reverse_to_multiset();
        assert(dealt =~= dealt.take(n as int) + tail);
        assert((new_deck + dealt).to_multiset() =~= (old_deck + standard_deck()).to_multiset());
    }
}

} // verus!

verus! {

/// How many cards of a suit a sequence holds.
pub open spec fn suit_count(cards: Seq<Card>, s: Suit) -> nat
    decreases cards.len(),
{
    if cards.len() == 0 {
        0
    } else {
        suit_count(cards.drop_last(), s) + if cards.last().suit == s { 1nat } else { 0nat }
    }
}

/// The position of a suit among the blocks of the standard deck.
pub open spec fn suit_index(s: Suit) -> int {
    match s {
        Suit::Hearts => 0,
        Suit::Diamonds => 1,
        Suit::Spades => 2,
        Suit::Clubs => 3,
    }
}

proof fn lemma_deck_prefix_counts(i: int, s: Suit)
    requires
        0 <= i <= 56,
    ensures
        suit_count(standard_deck().take(i), s) == {
            let k = 14 * suit_index(s);
            if i <= k {
                0
            } else if i >= k + 14 {
                14
            } else {
                i - k
            }
        },
        crate::hand::ace_count(standard_deck().take(i)) == (i + 3) / 14,
    decreases i,
{
    let d = standard_deck();
    if i > 0 {
        lemma_deck_prefix_counts(i - 1, s);
        assert(d.take(i).drop_last() =~= d.take(i - 1));
        assert(d.take(i).last() == d[i - 1]);
        assert(suit_at((i - 1) / 14) == s <==> (i - 1) / 14 == suit_index(s));
    } else {
        assert(d.take(0) =~= Seq::<Card>::empty());
    }
}

/// The standard deck holds 14 cards of each suit, the same 14 values in each
/// (the numbers one to ten, ace, jack, queen and king), 4 aces among them.
pub proof fn lemma_standard_deck_counts()
    ensures
        forall|s: Suit| suit_count(standard_deck(), s) == 14,
        crate::hand::ace_count(standard_deck()) == 4,
        forall|c: Card, s: Suit| standard_deck().contains(c) ==> standard_deck().contains(
            Card { value: c.value, suit: s },
        ),
        forall|c: Card| #[trigger] standard_deck().contains(c) ==> (c.value matches CardValue::Number(n)
            ==> 1 <= n <= 10),
{
    assert(standard_deck().take(56) =~= standard_deck());
    assert forall|s: Suit| suit_count(standard_deck(), s) == 14 by {
        lemma_deck_prefix_counts(56, s);
    }
    lemma_deck_prefix_counts(56, Suit::Hearts);
    lemma_standard_deck_cards();
    assert forall|c: Card, s: Suit| standard_deck().contains(c) implies standard_deck().contains(
        Card { value: c.value, suit: s },
    ) by {
        assert(is_standard_card(c));
        assert(is_standard_card(Card { value: c.value, suit: s }));
    }
}

} // verus!

verus! {

/// Dealing from a deck that holds enough cards hands out its top cards: the
/// `i`-th card dealt is the `i`-th from the top, and the rest of the deck
/// stays below in its order. At the start of a hand, the player gets the top
/// card and the one under it, the dealer the next two.
pub proof fn lemma_dealt_from_top(old_deck: Seq<Card>, dealt: Seq<Card>, new_deck: Seq<Card>)
    requires
        dealt_from(old_deck, dealt, new_deck),
        dealt.len() <= old_deck.len(),
    ensures
        forall|i: int| 0 <= i < dealt.len() ==> #[trigger] dealt[i] == old_deck[old_deck.len() - 1 - i],
        new_deck.len() == old_deck.len() - dealt.len(),
        forall|i: int| 0 <= i < new_deck.len() ==> #[trigger] new_deck[i] == old_deck[i],
{
}

} // verus!
