use vstd::prelude::*;

use crate::cards::{BlackjackAction, Card, CardValue, Suit};
use crate::hand::{hand_fits, hand_value, spec_hand_value};

verus! {

/// Appends one character with `String::push`. Trusted: the string afterwards
/// is the string before followed by `c`.
#[verifier::external_body]
pub(crate) fn push_char(s: &mut String, c: char)
    ensures
        final(s)@ == old(s)@.push(c),
{
    s.push(c);
}

/// The character of a decimal digit.
pub open spec fn digit_char(d: nat) -> char {
    (48 + d) as char
}

/// The decimal text of a number, without leading zeros.
pub open spec fn decimal(n: nat) -> Seq<char>
    decreases n,
{
    if n < 10 {
        seq![digit_char(n)]
    } else {
        decimal(n / 10).push(digit_char(n % 10))
    }
}

fn digit(d: u32) -> (c: char)
    requires
        d < 10,
    ensures
        c == digit_char(d as nat),
{
    if d == 0 {
        '0'
    } else if d == 1 {
        '1'
    } else if d == 2 {
        '2'
    } else if d == 3 {
        '3'
    } else if d == 4 {
        '4'
    } else if d == 5 {
        '5'
    } else if d == 6 {
        '6'
    } else if d == 7 {
        '7'
    } else if d == 8 {
        '8'
    } else {
        '9'
    }
}

/// Appends the decimal text of `n`.
pub(crate) fn push_decimal(s: &mut String, n: u32)
    ensures
        final(s)@ == old(s)@ + decimal(n as nat),
    decreases n,
{
    if n >= 10 {
        push_decimal(s, n / 10);
    }
    push_char(s, digit(n % 10));
    proof {
        if n >= 10 {
            assert(old(s)@ + decimal(n as nat) =~= old(s)@ + decimal((n / 10) as nat) + seq![
                digit_char((n % 10) as nat),
            ]);
        }
    }
}

/// The text of a card's value: its number, or A, J, Q, K.
pub open spec fn value_text(v: CardValue) -> Seq<char> {
    match v {
        CardValue::Number(n) => decimal(n as nat),
        CardValue::Ace => seq!['A'],
        CardValue::Jack => seq!['J'],
        CardValue::Queen => seq!['Q'],
        CardValue::King => seq!['K'],
    }
}

/// The symbol of a suit.
pub open spec fn suit_char(s: Suit) -> char {
    match s {
        Suit::Hearts => '♡',
        Suit::Diamonds => '♢',
        Suit::Spades => '♤',
        Suit::Clubs => '♧',
    }
}

/// The text of a card: its value followed by its suit's symbol.
pub open spec fn card_text(c: Card) -> Seq<char> {
    value_text(c.value).push(suit_char(c.suit))
}

fn push_card(s: &mut String, card: &Card)
    ensures
        final(s)@ == old(s)@ + card_text(*card),
{
    match card.value {
        CardValue::Number(v) => push_decimal(s, v as u32),
        CardValue::Ace => push_char(s, 'A'),
        CardValue::Jack => push_char(s, 'J'),
        CardValue::Queen => push_char(s, 'Q'),
        CardValue::King => push_char(s, 'K'),
    }
    let symbol = match card.suit {
        Suit::Hearts => '♡',
        Suit::Diamonds => '♢',
        Suit::Spades => '♤',
        Suit::Clubs => '♧',
    };
    push_char(s, symbol);
    proof {
        assert(old(s)@ + card_text(*card) =~= old(s)@ + value_text(card.value) + seq![symbol]);
    }
}

/// Shows a card, such as `10♡` or `K♧`.
pub fn card_str(card: &Card) -> (text: String)
    ensures
        text@ == card_text(*card),
{
    let mut text = String::new();
    push_card(&mut text, card);
    proof {
        assert(Seq::<char>::empty() + card_text(*card) =~= card_text(*card));
    }
    text
}

/// Every card of a hand shown, each followed by a space.
pub open spec fn cards_text(hand: Seq<Card>) -> Seq<char>
    decreases hand.len(),
{
    if hand.len() == 0 {
        Seq::empty()
    } else {
        cards_text(hand.drop_last()) + card_text(hand.last()).push(' ')
    }
}

/// `k` face-down cards, each shown as `▒▒ `.
pub open spec fn hidden_text(k: nat) -> Seq<char>
    decreases k,
{
    if k == 0 {
        Seq::empty()
    } else {
        hidden_text((k - 1) as nat) + seq!['▒', '▒', ' ']
    }
}

/// The text of a hand: nothing for fewer than two cards; otherwise every card,
/// or only the first with the others face down.
pub open spec fn hand_text(hand: Seq<Card>, only_show_first: bool) -> Seq<char> {
    if hand.len() < 2 {
        Seq::empty()
    } else if only_show_first {
        card_text(hand[0]).push(' ') + hidden_text((hand.len() - 1) as nat)
    } else {
        cards_text(hand)
    }
}

/// Shows a hand, every card or only the first, each card followed by a space.
pub fn hand_str(hand: &[Card], only_show_first: bool) -> (text: String)
    ensures
        text@ == hand_text(hand@, only_show_first),
{
    let mut text = String::new();
    if hand.len() < 2 {
        return text;
    }
    if only_show_first {
        push_card(&mut text, &hand[0]);
        push_char(&mut text, ' ');
        let n = hand.len() - 1;
        let mut i: usize = 0;
        while i < n
            invariant
                i <= n,
                n == hand@.len() - 1,
                hand@.len() >= 2,
                text@ == card_text(hand@[0]).push(' ') + hidden_text(i as nat),
            decreases n - i,
        {
            push_char(&mut text, '▒');
            push_char(&mut text, '▒');
            push_char(&mut text, ' ');
            proof {
                assert(text@ =~= card_text(hand@[0]).push(' ') + hidden_text((i + 1) as nat));
            }
            i = i + 1;
        }
    } else {
        let mut i: usize = 0;
        while i < hand.len()
            invariant
                i <= hand@.len(),
                text@ == cards_text(hand@.take(i as int)),
            decreases hand@.len() - i,
        {
            push_card(&mut text, &hand[i]);
            push_char(&mut text, ' ');
            proof {
                assert(hand@.take(i + 1).drop_last() =~= hand@.take(i as int));
                assert(text@ =~= cards_text(hand@.take(i + 1)));
            }
            i = i + 1;
        }
        proof {
            assert(hand@.take(hand@.len() as int) =~= hand@);
        }
    }
    text
}

} // verus!

verus! {

/// The value of a hand shown as `[17] ` or, when soft, `[*17] `, followed by its cards.
pub open spec fn hand_summary_text(hand: Seq<Card>) -> Seq<char> {
    let v = spec_hand_value(hand);
    seq!['['] + (if v.is_soft { seq!['*'] } else { Seq::empty() }) + decimal(v.count as nat)
        + seq![']', ' '] + hand_text(hand, false)
}

fn push_hand_summary(s: &mut String, hand: &[Card])
    requires
        hand_fits(hand@),
    ensures
        final(s)@ == old(s)@ + hand_summary_text(hand@),
{
    let v = hand_value(hand);
    push_char(s, '[');
    if v.is_soft {
        push_char(s, '*');
    }
    push_decimal(s, v.count as u32);
    push_char(s, ']');
    push_char(s, ' ');
    let cards = hand_str(hand, false);
    s.append(cards.as_str());
    proof {
        assert(final(s)@ =~= old(s)@ + hand_summary_text(hand@));
    }
}

/// The line that shows the player's hand, such as `Your hand: [*17] A♡ 6♢ `.
pub fn player_hand_line(hand: &[Card]) -> (line: String)
    requires
        hand_fits(hand@),
    ensures
        line@ == "Your hand: "@ + hand_summary_text(hand@),
{
    let mut line = String::new();
    line.append("Your hand: ");
    push_hand_summary(&mut line, hand);
    line
}

/// The line that shows the dealer's hand, such as `Dealer hand: [19] K♤ 9♧ `.
pub fn dealer_hand_line(hand: &[Card]) -> (line: String)
    requires
        hand_fits(hand@),
    ensures
        line@ == "Dealer hand: "@ + hand_summary_text(hand@),
{
    let mut line = String::new();
    line.append("Dealer hand: ");
    push_hand_summary(&mut line, hand);
    line
}

/// The choices offered to the player, such as `(H)it, (S)tand, (D)ouble Down`.
pub open spec fn action_prompt_text(can_split: bool, can_double_down: bool) -> Seq<char> {
    "(H)it, (S)tand"@ + (if can_split { ", (X) Split"@ } else { Seq::empty() }) + (
    if can_double_down {
        ", (D)ouble Down"@
    } else {
        Seq::empty()
    })
}

/// Builds the list of choices offered to the player.
pub fn action_prompt(can_split: bool, can_double_down: bool) -> (prompt: String)
    ensures
        prompt@ == action_prompt_text(can_split, can_double_down),
{
    let mut prompt = String::new();
    prompt.append("(H)it, (S)tand");
    if can_split {
        prompt.append(", (X) Split");
    }
    if can_double_down {
        prompt.append(", (D)ouble Down");
    }
    proof {
        assert(prompt@ =~= action_prompt_text(can_split, can_double_down));
    }
    prompt
}

/// What the game echoes once the player has chosen.
pub open spec fn action_echo_text(action: BlackjackAction) -> Seq<char> {
    match action {
        BlackjackAction::Hit => "[You Hit] "@,
        BlackjackAction::Stand => "[You Stand] "@,
        BlackjackAction::Split => "[You Split] "@,
        BlackjackAction::DoubleDown => "[You Double Down] "@,
    }
}

/// Builds the echo of the player's choice, such as `[You Hit] `.
pub fn action_echo(action: BlackjackAction) -> (echo: String)
    ensures
        echo@ == action_echo_text(action),
{
    let mut echo = String::new();
    match action {
        BlackjackAction::Hit => echo.append("[You Hit] "),
        BlackjackAction::Stand => echo.append("[You Stand] "),
        BlackjackAction::Split => echo.append("[You Split] "),
        BlackjackAction::DoubleDown => echo.append("[You Double Down] "),
    }
    echo
}

} // verus!

verus! {

/// How a card is shown: its value, then the symbol of its suit (♡ hearts,
/// ♢ diamonds, ♤ spades, ♧ clubs). A number card shows its number in
/// decimal, which reads back as the number; an ace, jack, queen or king shows
/// A, J, Q or K.
pub proof fn lemma_card_text_law(c: Card)
    ensures
        card_text(c).len() >= 2,
        card_text(c).last() == match c.suit {
            Suit::Hearts => '♡',
            Suit::Diamonds => '♢',
            Suit::Spades => '♤',
            Suit::Clubs => '♧',
        },
        c.value matches CardValue::Number(n) ==> crate::input::digits_value(card_text(c).drop_last())
            == n,
        c.value is Ace ==> card_text(c).drop_last() == seq!['A'],
        c.value is Jack ==> card_text(c).drop_last() == seq!['J'],
        c.value is Queen ==> card_text(c).drop_last() == seq!['Q'],
        c.value is King ==> card_text(c).drop_last() == seq!['K'],
{
    assert(card_text(c).drop_last() =~= value_text(c.value));
    if let CardValue::Number(n) = c.value {
        crate::input::lemma_digits_read_back(n as nat);
        lemma_decimal_nonempty(n as nat);
    }
}

proof fn lemma_decimal_nonempty(n: nat)
    ensures
        decimal(n).len() >= 1,
    decreases n,
{
    if n >= 10 {
        lemma_decimal_nonempty(n / 10);
    }
}

proof fn lemma_cards_text_concat(a: Seq<Card>, b: Seq<Card>)
    ensures
        cards_text(a + b) == cards_text(a) + cards_text(b),
    decreases b.len(),
{
    if b.len() == 0 {
        assert(a + b =~= a);
        assert(cards_text(a) + cards_text(b) =~= cards_text(a));
    } else {
        assert((a + b).drop_last() =~= a + b.drop_last());
        lemma_cards_text_concat(a, b.drop_last());
        assert(cards_text(a + b) =~= cards_text(a) + cards_text(b));
    }
}

proof fn lemma_hidden_text(k: nat)
    ensures
        hidden_text(k).len() == 3 * k,
        forall|i: int| 0 <= i < 3 * k ==> #[trigger] hidden_text(k)[i] == if i % 3 == 2 {
            ' '
        } else {
            '▒'
        },
    decreases k,
{
    if k > 0 {
        lemma_hidden_text((k - 1) as nat);
        let prev = hidden_text((k - 1) as nat);
        assert forall|i: int| 0 <= i < 3 * k implies #[trigger] hidden_text(k)[i] == if i % 3 == 2 {
            ' '
        } else {
            '▒'
        } by {
            if i < 3 * (k - 1) {
                assert(hidden_text(k)[i] == prev[i]);
            }
        }
    }
}

/// How a hand is shown: nothing for fewer than two cards; all cards shown
/// is each card's text followed by a space, one card after another, so a hand
/// shows as its parts shown in turn; with only the first shown, the first
/// card and a space, then `▒▒ ` for each other card.
pub proof fn lemma_hand_text_law(hand: Seq<Card>, a: Seq<Card>, b: Seq<Card>, c: Card)
    ensures
        hand.len() < 2 ==> hand_text(hand, true) == Seq::<char>::empty() && hand_text(hand, false)
            == Seq::<char>::empty(),
        cards_text(a + b) == cards_text(a) + cards_text(b),
        cards_text(seq![c]) == card_text(c).push(' '),
        hand.len() >= 2 ==> hand_text(hand, true).len() == card_text(hand[0]).len() + 1 + 3 * (
        hand.len() - 1),
        hand.len() >= 2 ==> hand_text(hand, true).take(card_text(hand[0]).len() + 1int) == card_text(
            hand[0],
        ).push(' '),
        hand.len() >= 2 ==> forall|i: int|
            0 <= i < 3 * (hand.len() - 1) ==> #[trigger] hand_text(hand, true)[card_text(hand[0]).len()
                + 1 + i] == if i % 3 == 2 {
                ' '
            } else {
                '▒'
            },
{
    lemma_cards_text_concat(a, b);
    assert(seq![c].drop_last() =~= Seq::<Card>::empty());
    assert(seq![c].last() == c);
    assert(cards_text(Seq::<Card>::empty()) == Seq::<char>::empty());
    assert(cards_text(seq![c]) =~= card_text(c).push(' '));
    if hand.len() >= 2 {
        let k = (hand.len() - 1) as nat;
        lemma_hidden_text(k);
        let head = card_text(hand[0]).push(' ');
        assert(hand_text(hand, true).take(head.len() as int) =~= head);
        assert forall|i: int| 0 <= i < 3 * (hand.len() - 1) implies #[trigger] hand_text(hand, true)[
            card_text(hand[0]).len() + 1 + i] == if i % 3 == 2 {
            ' '
        } else {
            '▒'
        } by {
            assert(hand_text(hand, true)[head.len() + i] == hidden_text(k)[i]);
        }
    }
}

} // verus!
