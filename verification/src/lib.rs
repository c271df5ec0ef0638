//! A game of blackjack: cards, decks, hand values, the rules of a round, the
//! player's turn, and the text that the game shows.

pub mod cards;
pub mod deck;
pub mod draw;
pub mod hand;
pub mod input;
pub mod outcome;
pub mod round;
pub mod text;

pub use cards::{BlackjackAction, Card, CardValue, GameOutcome, HandValue, Suit};
pub use deck::{create_deck, get_deck_shuffled, initial_deal};
pub use draw::{
    DrawOutput, DrawRequest, PlayerDraw, PlayerDrawResult,
};
pub use hand::{
    card_split_value, dealer_should_hit, hand_value, hand_total_fits, is_blackjack, is_bust, opening_outcome,
    resolve_hand,
};
pub use input::{
    action_for_key, bool_key_answer, InputKey, NumberEntry, NumberInputStep,
};
pub use outcome::handle_outcome;
pub use round::{dealer_can_finish, dealer_turn, outcome_before_dealer, round_outcome};
pub use text::{
    action_echo, action_prompt, card_str, dealer_hand_line, hand_str, player_hand_line,
};
