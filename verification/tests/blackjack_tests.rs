use blackjack::{
    action_echo, action_for_key, action_prompt, bool_key_answer, card_split_value, card_str,
    create_deck, dealer_hand_line, dealer_should_hit, get_deck_shuffled, hand_str,
    hand_total_fits, hand_value, handle_outcome, initial_deal, is_blackjack, is_bust,
    opening_outcome, player_hand_line, resolve_hand, BlackjackAction, Card, CardValue,
    dealer_can_finish, dealer_turn, outcome_before_dealer, round_outcome, DrawOutput,
    DrawRequest, GameOutcome, HandValue, InputKey, NumberEntry, NumberInputStep,
    PlayerDraw, Suit,
};

fn card(value: CardValue, suit: Suit) -> Card {
    Card { value, suit }
}

fn num(n: u8) -> Card {
    card(CardValue::Number(n), Suit::Hearts)
}

fn ace() -> Card {
    card(CardValue::Ace, Suit::Spades)
}

fn king() -> Card {
    card(CardValue::King, Suit::Clubs)
}

fn count_of(deck: &[Card], c: &Card) -> usize {
    deck.iter().filter(|d| *d == c).count()
}

fn same_cards(a: &[Card], b: &[Card]) -> bool {
    a.len() == b.len() && a.iter().all(|c| count_of(a, c) == count_of(b, c))
}

#[test]
fn create_deck_has_every_card_once_in_order() {
    let deck = create_deck();
    assert_eq!(deck.len(), 56);
    assert_eq!(deck[0], card(CardValue::Number(1), Suit::Hearts));
    assert_eq!(deck[9], card(CardValue::Number(10), Suit::Hearts));
    assert_eq!(deck[10], card(CardValue::Ace, Suit::Hearts));
    assert_eq!(deck[13], card(CardValue::King, Suit::Hearts));
    assert_eq!(deck[14], card(CardValue::Number(1), Suit::Diamonds));
    assert_eq!(deck[28], card(CardValue::Number(1), Suit::Spades));
    assert_eq!(deck[55], card(CardValue::King, Suit::Clubs));
    for c in &deck {
        assert_eq!(count_of(&deck, c), 1);
    }
}

#[test]
fn shuffled_new_deck_holds_the_standard_cards_in_another_order() {
    let deck = get_deck_shuffled(None);
    let standard = create_deck();
    assert!(same_cards(&deck, &standard));
    assert_ne!(deck, standard);
}

#[test]
fn shuffled_given_deck_keeps_its_cards() {
    let given = vec![num(2), num(2), ace(), king()];
    let deck = get_deck_shuffled(Some(given.clone()));
    assert!(same_cards(&deck, &given));
}

#[test]
fn initial_deal_takes_from_the_top() {
    let mut deck = vec![num(1), num(2), num(3), num(4), num(5)];
    let mut player = Vec::new();
    let mut dealer = Vec::new();
    initial_deal(&mut deck, &mut player, &mut dealer);
    assert_eq!(player, vec![num(5), num(4)]);
    assert_eq!(dealer, vec![num(3), num(2)]);
    assert_eq!(deck, vec![num(1)]);
}

#[test]
fn initial_deal_keeps_earlier_cards_in_hands() {
    let mut deck = vec![num(1), num(2), num(3), num(4)];
    let mut player = vec![king()];
    let mut dealer = vec![ace()];
    initial_deal(&mut deck, &mut player, &mut dealer);
    assert_eq!(player, vec![king(), num(4), num(3)]);
    assert_eq!(dealer, vec![ace(), num(2), num(1)]);
    assert!(deck.is_empty());
}

#[test]
fn initial_deal_refills_an_empty_deck() {
    let mut deck = Vec::new();
    let mut player = Vec::new();
    let mut dealer = Vec::new();
    initial_deal(&mut deck, &mut player, &mut dealer);
    assert_eq!(player.len(), 2);
    assert_eq!(dealer.len(), 2);
    assert_eq!(deck.len(), 52);
    let mut all = deck.clone();
    all.extend(dealer.iter().rev());
    all.extend(player.iter().rev());
    assert!(same_cards(&all, &create_deck()));
}

#[test]
fn initial_deal_refills_midway() {
    let mut deck = vec![num(7), num(8)];
    let mut player = Vec::new();
    let mut dealer = Vec::new();
    initial_deal(&mut deck, &mut player, &mut dealer);
    assert_eq!(player, vec![num(8), num(7)]);
    assert_eq!(dealer.len(), 2);
    assert_eq!(deck.len(), 54);
    let mut fresh = deck.clone();
    fresh.extend(dealer.iter().rev());
    assert!(same_cards(&fresh, &create_deck()));
}

#[test]
fn hand_value_counts_aces_high_then_low() {
    assert_eq!(hand_value(&[ace(), king()]), HandValue { count: 21, is_soft: true });
    assert_eq!(hand_value(&[ace(), ace()]), HandValue { count: 12, is_soft: true });
    assert_eq!(hand_value(&[ace(), ace(), king()]), HandValue { count: 12, is_soft: false });
    assert_eq!(hand_value(&[ace(), num(6)]), HandValue { count: 17, is_soft: true });
    assert_eq!(hand_value(&[ace(), num(6), num(10)]), HandValue { count: 17, is_soft: false });
    assert_eq!(hand_value(&[king(), num(10), num(5)]), HandValue { count: 25, is_soft: false });
    assert_eq!(hand_value(&[]), HandValue { count: 0, is_soft: false });
    let faces = [
        card(CardValue::Jack, Suit::Diamonds),
        card(CardValue::Queen, Suit::Diamonds),
    ];
    assert_eq!(hand_value(&faces), HandValue { count: 20, is_soft: false });
}

#[test]
fn hand_value_does_not_depend_on_order() {
    let a = [ace(), king(), num(5)];
    let b = [num(5), ace(), king()];
    assert_eq!(hand_value(&a), hand_value(&b));
    assert_eq!(hand_value(&a), HandValue { count: 16, is_soft: false });
}

#[test]
fn soft_hands_count_between_eleven_and_twenty_one() {
    for hand in [vec![ace()], vec![ace(), num(10)], vec![ace(), ace(), num(9)]] {
        let v = hand_value(&hand);
        assert!(v.is_soft);
        assert!(11 <= v.count && v.count <= 21);
    }
}

#[test]
fn hand_value_count_is_stored_in_a_byte() {
    let hand = vec![num(200), num(100)];
    assert_eq!(hand_value(&hand), HandValue { count: 44, is_soft: false });
}

#[test]
fn blackjack_needs_two_cards_counting_twenty_one() {
    assert!(is_blackjack(&[ace(), king()]));
    assert!(!is_blackjack(&[ace(), num(5), num(5)]));
    assert!(!is_blackjack(&[king(), num(10)]));
    assert!(!is_blackjack(&[]));
}

#[test]
fn resolve_hand_compares_counts() {
    assert_eq!(resolve_hand(&[king(), num(9)], &[king(), num(8)]), GameOutcome::WinByCount);
    assert_eq!(resolve_hand(&[king(), num(8)], &[king(), num(9)]), GameOutcome::LoseByCount);
    assert_eq!(resolve_hand(&[king(), num(8)], &[num(10), num(8)]), GameOutcome::Push);
}

#[test]
fn resolve_hand_swaps_win_and_loss() {
    let a = [king(), num(9)];
    let b = [ace(), num(5)];
    assert_eq!(resolve_hand(&a, &b), GameOutcome::WinByCount);
    assert_eq!(resolve_hand(&b, &a), GameOutcome::LoseByCount);
}

#[test]
fn split_values_are_card_points() {
    assert_eq!(card_split_value(&CardValue::Number(7)), 7);
    assert_eq!(card_split_value(&CardValue::Ace), 11);
    assert_eq!(card_split_value(&CardValue::Queen), 10);
}

#[test]
fn dealer_hits_sixteen_and_soft_seventeen() {
    assert!(dealer_should_hit(HandValue { count: 16, is_soft: false }));
    assert!(dealer_should_hit(HandValue { count: 17, is_soft: true }));
    assert!(!dealer_should_hit(HandValue { count: 17, is_soft: false }));
    assert!(!dealer_should_hit(HandValue { count: 18, is_soft: true }));
}

#[test]
fn bust_is_over_twenty_one() {
    assert!(is_bust(&[king(), num(10), num(2)]));
    assert!(!is_bust(&[king(), num(10), ace()]));
}

#[test]
fn opening_outcome_table() {
    let bj = [ace(), king()];
    let other = [num(9), num(9)];
    assert_eq!(opening_outcome(&bj, &bj), Some(GameOutcome::Push));
    assert_eq!(opening_outcome(&bj, &other), Some(GameOutcome::WinByBlackjack));
    assert_eq!(opening_outcome(&other, &bj), Some(GameOutcome::LoseByBlackjack));
    assert_eq!(opening_outcome(&other, &other), None);
}

#[test]
fn hand_total_fits_a_sixteen_bit_sum() {
    assert!(hand_total_fits(&[ace(), king()]));
    let big = vec![num(255); 300];
    assert!(!hand_total_fits(&big));
    let edge = vec![num(255); 257];
    assert!(hand_total_fits(&edge));
}

#[test]
fn card_str_shows_value_and_suit() {
    assert_eq!(card_str(&card(CardValue::Number(10), Suit::Hearts)), "10♡");
    assert_eq!(card_str(&card(CardValue::Number(7), Suit::Diamonds)), "7♢");
    assert_eq!(card_str(&card(CardValue::Ace, Suit::Spades)), "A♤");
    assert_eq!(card_str(&card(CardValue::Jack, Suit::Clubs)), "J♧");
    assert_eq!(card_str(&card(CardValue::Queen, Suit::Hearts)), "Q♡");
    assert_eq!(card_str(&card(CardValue::King, Suit::Clubs)), "K♧");
    assert_eq!(card_str(&card(CardValue::Number(0), Suit::Clubs)), "0♧");
    assert_eq!(card_str(&card(CardValue::Number(255), Suit::Clubs)), "255♧");
}

#[test]
fn hand_str_shows_all_or_only_the_first() {
    let hand = [ace(), king(), num(3)];
    assert_eq!(hand_str(&hand, false), "A♤ K♧ 3♡ ");
    assert_eq!(hand_str(&hand, true), "A♤ ▒▒ ▒▒ ");
    assert_eq!(hand_str(&[ace()], false), "");
    assert_eq!(hand_str(&[], true), "");
}

#[test]
fn hand_lines_show_value_and_cards() {
    assert_eq!(player_hand_line(&[ace(), num(6)]), "Your hand: [*17] A♤ 6♡ ");
    assert_eq!(dealer_hand_line(&[king(), num(9)]), "Dealer hand: [19] K♧ 9♡ ");
    assert_eq!(player_hand_line(&[king()]), "Your hand: [10] ");
}

#[test]
fn handle_outcome_settles_and_announces() {
    let dv = HandValue { count: 18, is_soft: false };
    let pv = HandValue { count: 20, is_soft: false };
    let cases = [
        (GameOutcome::WinByCount, "You win! (20 to 18) +10", 110),
        (GameOutcome::WinByBust, "You win! Dealer busted with 18. +10", 110),
        (GameOutcome::WinByBlackjack, "Blackjack! +15", 110),
        (GameOutcome::Push, "Push. (20 to 18)", 100),
        (GameOutcome::LoseByCount, "You lose. (18 to 20) -10", 90),
        (GameOutcome::LoseByBust, "You lose. You busted with 20. -10", 90),
        (GameOutcome::LoseByBlackjack, "Dealer blackjack! -10", 90),
    ];
    for (outcome, message, after) in cases {
        let mut balance = 100;
        assert_eq!(handle_outcome(outcome, dv, pv, 10, &mut balance), message);
        assert_eq!(balance, after);
    }
}

#[test]
fn blackjack_payout_is_announced_rounded_down() {
    let v = HandValue { count: 21, is_soft: true };
    let mut balance = 0;
    assert_eq!(handle_outcome(GameOutcome::WinByBlackjack, v, v, 5, &mut balance), "Blackjack! +7");
    assert_eq!(balance, 5);
    let mut balance = 0;
    assert_eq!(
        handle_outcome(GameOutcome::WinByBlackjack, v, v, u32::MAX, &mut balance),
        "Blackjack! +4294967295"
    );
    assert_eq!(balance, u32::MAX);
}

#[test]
fn win_then_loss_of_the_same_bet_restores_the_balance() {
    let v = HandValue { count: 19, is_soft: false };
    let mut balance = 50;
    handle_outcome(GameOutcome::WinByCount, v, v, 20, &mut balance);
    handle_outcome(GameOutcome::LoseByBust, v, v, 20, &mut balance);
    assert_eq!(balance, 50);
}

#[test]
fn action_prompt_lists_offered_actions() {
    assert_eq!(action_prompt(false, false), "(H)it, (S)tand");
    assert_eq!(action_prompt(true, false), "(H)it, (S)tand, (X) Split");
    assert_eq!(action_prompt(false, true), "(H)it, (S)tand, (D)ouble Down");
    assert_eq!(action_prompt(true, true), "(H)it, (S)tand, (X) Split, (D)ouble Down");
}

#[test]
fn action_echo_names_the_action() {
    assert_eq!(action_echo(BlackjackAction::Hit), "[You Hit] ");
    assert_eq!(action_echo(BlackjackAction::Stand), "[You Stand] ");
    assert_eq!(action_echo(BlackjackAction::Split), "[You Split] ");
    assert_eq!(action_echo(BlackjackAction::DoubleDown), "[You Double Down] ");
}

#[test]
fn keys_answer_yes_or_no() {
    assert_eq!(bool_key_answer('y'), Some(true));
    assert_eq!(bool_key_answer('Y'), Some(true));
    assert_eq!(bool_key_answer('n'), Some(false));
    assert_eq!(bool_key_answer('N'), Some(false));
    assert_eq!(bool_key_answer('q'), None);
}

#[test]
fn keys_pick_only_offered_actions() {
    assert_eq!(action_for_key('h', false, false), Some(BlackjackAction::Hit));
    assert_eq!(action_for_key('S', false, false), Some(BlackjackAction::Stand));
    assert_eq!(action_for_key('x', true, false), Some(BlackjackAction::Split));
    assert_eq!(action_for_key('X', false, true), None);
    assert_eq!(action_for_key('D', false, true), Some(BlackjackAction::DoubleDown));
    assert_eq!(action_for_key('d', true, false), None);
    assert_eq!(action_for_key('z', true, true), None);
}

#[test]
fn number_entry_reads_digits() {
    let mut e = NumberEntry::new();
    assert_eq!(e.step(InputKey::Char('1')), NumberInputStep::Typed('1'));
    assert_eq!(e.step(InputKey::Char('a')), NumberInputStep::Ignored);
    assert_eq!(e.step(InputKey::Char('2')), NumberInputStep::Typed('2'));
    assert_eq!(e.step(InputKey::Char('7')), NumberInputStep::Typed('7'));
    assert_eq!(e.text(), "127");
    assert_eq!(e.step(InputKey::Backspace), NumberInputStep::Erased);
    assert_eq!(e.text(), "12");
    assert_eq!(e.step(InputKey::Other), NumberInputStep::Ignored);
    assert_eq!(e.step(InputKey::Enter), NumberInputStep::Entered(12));
}

#[test]
fn number_entry_empty_takes_default() {
    let mut e = NumberEntry::new();
    assert_eq!(e.step(InputKey::Backspace), NumberInputStep::Erased);
    assert_eq!(e.step(InputKey::Enter), NumberInputStep::UseDefault);
}

#[test]
fn number_entry_rejects_too_large_numbers() {
    let mut e = NumberEntry::new();
    for c in "4294967296".chars() {
        e.step(InputKey::Char(c));
    }
    assert_eq!(e.step(InputKey::Enter), NumberInputStep::Invalid);
    assert_eq!(e.text(), "4294967296");
    e.step(InputKey::Backspace);
    assert_eq!(e.step(InputKey::Enter), NumberInputStep::Entered(429496729));
    let mut e = NumberEntry::new();
    for c in "0004294967295".chars() {
        e.step(InputKey::Char(c));
    }
    assert_eq!(e.step(InputKey::Enter), NumberInputStep::Entered(u32::MAX));
}

fn run_silent_steps(draw: &mut PlayerDraw) -> DrawRequest {
    loop {
        match draw.request() {
            DrawRequest::Proceed => {
                draw.proceed();
            }
            other => return other,
        }
    }
}

#[test]
fn draw_hit_to_twenty_one_ends_the_turn() {
    let mut deck = vec![num(2), num(5)];
    let mut draw = PlayerDraw::new(vec![king(), num(6)], 100, 10, true);
    assert_eq!(
        draw.request(),
        DrawRequest::Ask { can_split: false, can_double_down: true }
    );
    let shows = draw.take_action(&mut deck, BlackjackAction::Hit);
    assert_eq!(shows.len(), 2);
    assert!(matches!(&shows[0], DrawOutput::PlayerHand(h) if h.len() == 3));
    assert!(matches!(shows[1], DrawOutput::Pause));
    assert_eq!(deck, vec![num(2)]);
    assert_eq!(run_silent_steps(&mut draw), DrawRequest::Done);
    let (hand, result) = draw.finish();
    assert_eq!(hand, vec![king(), num(6), num(5)]);
    assert!(result.0.is_none());
    assert_eq!(result.1, (10, 0));
}

#[test]
fn draw_after_a_hit_offers_no_double_down() {
    let mut deck = vec![num(2), num(2)];
    let mut draw = PlayerDraw::new(vec![num(5), num(5)], 100, 10, false);
    assert_eq!(
        draw.request(),
        DrawRequest::Ask { can_split: true, can_double_down: true }
    );
    draw.take_action(&mut deck, BlackjackAction::Hit);
    assert_eq!(
        draw.request(),
        DrawRequest::Ask { can_split: false, can_double_down: false }
    );
    draw.take_action(&mut deck, BlackjackAction::Stand);
    assert_eq!(run_silent_steps(&mut draw), DrawRequest::Done);
    let (hand, result) = draw.finish();
    assert_eq!(hand, vec![num(5), num(5), num(2)]);
    assert_eq!(result.1, (10, 0));
}

#[test]
fn draw_double_down_doubles_the_bet_and_stops() {
    let mut deck = vec![num(3)];
    let mut draw = PlayerDraw::new(vec![num(5), num(6)], 20, 10, true);
    assert!(draw.can_take_action(&deck, BlackjackAction::DoubleDown));
    draw.take_action(&mut deck, BlackjackAction::DoubleDown);
    assert_eq!(run_silent_steps(&mut draw), DrawRequest::Done);
    let (hand, result) = draw.finish();
    assert_eq!(hand, vec![num(5), num(6), num(3)]);
    assert_eq!(result.1, (20, 0));
    assert!(deck.is_empty());
}

#[test]
fn draw_offers_nothing_extra_when_the_balance_is_short() {
    let draw = PlayerDraw::new(vec![num(8), num(8)], 15, 10, false);
    assert_eq!(
        draw.request(),
        DrawRequest::Ask { can_split: false, can_double_down: false }
    );
    assert!(!draw.can_take_action(&vec![num(2), num(3)], BlackjackAction::Split));
    assert!(!draw.can_take_action(&vec![num(2)], BlackjackAction::DoubleDown));
    assert!(!draw.can_take_action(&vec![], BlackjackAction::Hit));
    assert!(draw.can_take_action(&vec![], BlackjackAction::Stand));
}

#[test]
fn draw_starting_at_twenty_one_asks_nothing() {
    let mut draw = PlayerDraw::new(vec![ace(), king()], 100, 10, true);
    assert_eq!(draw.request(), DrawRequest::Proceed);
    assert_eq!(run_silent_steps(&mut draw), DrawRequest::Done);
    let (hand, result) = draw.finish();
    assert_eq!(hand, vec![ace(), king()]);
    assert_eq!(result.1, (10, 0));
}

#[test]
fn draw_split_plays_both_hands() {
    let mut deck = vec![num(2), num(3), num(9), king()];
    let mut draw = PlayerDraw::new(vec![num(8), num(8)], 100, 10, false);
    assert_eq!(
        draw.request(),
        DrawRequest::Ask { can_split: true, can_double_down: true }
    );
    let shows = draw.take_action(&mut deck, BlackjackAction::Split);
    assert_eq!(shows.len(), 3);
    assert!(
        matches!(&shows[0], DrawOutput::NewHands(a, b) if *a == vec![num(8), king()] && *b == vec![num(8), num(9)])
    );
    assert!(matches!(shows[1], DrawOutput::FirstHand));
    assert_eq!(deck, vec![num(2), num(3)]);
    assert_eq!(
        draw.request(),
        DrawRequest::Ask { can_split: false, can_double_down: true }
    );
    draw.take_action(&mut deck, BlackjackAction::Stand);
    assert_eq!(draw.request(), DrawRequest::Proceed);
    let shows = draw.proceed();
    assert_eq!(shows.len(), 2);
    assert!(matches!(shows[0], DrawOutput::SecondHand));
    assert!(matches!(&shows[1], DrawOutput::PlayerHand(h) if *h == vec![num(8), num(9)]));
    assert_eq!(
        draw.request(),
        DrawRequest::Ask { can_split: false, can_double_down: true }
    );
    draw.take_action(&mut deck, BlackjackAction::Hit);
    assert_eq!(run_silent_steps(&mut draw), DrawRequest::Ask { can_split: false, can_double_down: false });
    draw.take_action(&mut deck, BlackjackAction::Stand);
    assert_eq!(run_silent_steps(&mut draw), DrawRequest::Done);
    let (hand, result) = draw.finish();
    assert_eq!(hand, vec![num(8), num(8)]);
    let (h1, h2) = result.0.unwrap();
    assert_eq!(h1, vec![num(8), king()]);
    assert_eq!(h2, vec![num(8), num(9), num(3)]);
    assert_eq!(result.1, (10, 0));
}

#[test]
fn draw_split_of_aces_plays_neither_hand() {
    let mut deck = vec![num(4), num(7)];
    let mut draw = PlayerDraw::new(vec![ace(), ace()], 100, 10, false);
    assert_eq!(
        draw.request(),
        DrawRequest::Ask { can_split: true, can_double_down: true }
    );
    let shows = draw.take_action(&mut deck, BlackjackAction::Split);
    assert_eq!(shows.len(), 1);
    assert_eq!(run_silent_steps(&mut draw), DrawRequest::Done);
    let (hand, result) = draw.finish();
    assert_eq!(hand, vec![ace(), ace()]);
    let (h1, h2) = result.0.unwrap();
    assert_eq!(h1, vec![ace(), num(7)]);
    assert_eq!(h2, vec![ace(), num(4)]);
    assert_eq!(result.1, (10, 10));
}

#[test]
fn standard_deck_counts() {
    let deck = create_deck();
    for suit in [Suit::Hearts, Suit::Diamonds, Suit::Spades, Suit::Clubs] {
        assert_eq!(deck.iter().filter(|c| c.suit == suit).count(), 14);
    }
    assert_eq!(deck.iter().filter(|c| c.value == CardValue::Ace).count(), 4);
    for c in &deck {
        if let CardValue::Number(n) = c.value {
            assert!((1..=10).contains(&n));
        }
    }
}

#[test]
fn dealer_draws_to_seventeen_from_the_top() {
    let mut deck = vec![num(9), num(2), num(3)];
    let mut hand = vec![num(10), num(2)];
    assert!(dealer_can_finish(&deck, &hand));
    let shown = dealer_turn(&mut deck, &mut hand);
    assert_eq!(shown, vec![vec![num(10), num(2), num(3)], vec![num(10), num(2), num(3), num(2)]]);
    assert_eq!(hand, vec![num(10), num(2), num(3), num(2)]);
    assert_eq!(deck, vec![num(9)]);
}

#[test]
fn dealer_hits_soft_seventeen_and_stands_on_hard() {
    let mut deck = vec![num(4), num(10)];
    let mut hand = vec![ace(), num(6)];
    let shown = dealer_turn(&mut deck, &mut hand);
    assert_eq!(shown.len(), 1);
    assert_eq!(hand_value(&hand), HandValue { count: 17, is_soft: false });
    assert_eq!(deck, vec![num(4)]);
    let mut deck = vec![num(4)];
    let mut hand = vec![king(), num(7)];
    assert!(dealer_turn(&mut deck, &mut hand).is_empty());
    assert_eq!(deck, vec![num(4)]);
}

#[test]
fn dealer_cannot_finish_on_a_short_deck() {
    assert!(!dealer_can_finish(&vec![num(2)], &vec![num(10), num(2)]));
    assert!(dealer_can_finish(&vec![], &vec![num(10), num(8)]));
}

#[test]
fn round_outcomes() {
    let bust = [king(), num(10), num(5)];
    let twenty = [king(), num(10)];
    let eighteen = [king(), num(8)];
    assert_eq!(
        outcome_before_dealer(Some(GameOutcome::WinByBlackjack), &bust),
        Some(GameOutcome::WinByBlackjack)
    );
    assert_eq!(outcome_before_dealer(None, &bust), Some(GameOutcome::LoseByBust));
    assert_eq!(outcome_before_dealer(None, &twenty), None);
    assert_eq!(round_outcome(Some(GameOutcome::LoseByBust), &twenty, &bust), GameOutcome::LoseByBust);
    assert_eq!(round_outcome(None, &eighteen, &bust), GameOutcome::WinByBust);
    assert_eq!(round_outcome(None, &twenty, &eighteen), GameOutcome::WinByCount);
    assert_eq!(round_outcome(None, &eighteen, &twenty), GameOutcome::LoseByCount);
}

fn keys_give(keys: &[InputKey], default: u32) -> u32 {
    let mut e = NumberEntry::new();
    for k in keys {
        match e.step(*k) {
            NumberInputStep::Entered(n) => return n,
            NumberInputStep::UseDefault => return default,
            _ => {}
        }
    }
    default
}

#[test]
fn a_key_sequence_gives_the_first_complete_number() {
    assert_eq!(keys_give(&[InputKey::Char('5'), InputKey::Enter, InputKey::Char('7'), InputKey::Enter], 10), 5);
    assert_eq!(keys_give(&[InputKey::Enter, InputKey::Char('7'), InputKey::Enter], 10), 10);
    let too_big: Vec<InputKey> = "99999999999".chars().map(InputKey::Char).collect();
    let mut keys = too_big.clone();
    keys.extend([InputKey::Enter, InputKey::Backspace, InputKey::Backspace, InputKey::Enter]);
    assert_eq!(keys_give(&keys, 10), 999999999);
    assert_eq!(keys_give(&[InputKey::Char('4'), InputKey::Char('2')], 10), 10);
}
