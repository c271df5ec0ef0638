use vstd::prelude::*;

verus! {

/// The four suits of a standard deck.
#[derive(Debug, Clone, Copy, PartialEq, Eq, Structural)]
pub enum Suit {
    Hearts,
    Diamonds,
    Spades,
    Clubs,
}

/// The face of a card: a number card carries its pip value.
#[derive(Debug, Clone, Copy, PartialEq, Eq, Structural)]
pub enum CardValue {
    Number(u8),
    Ace,
    Jack,
    Queen,
    King,
}

/// A playing card.
#[derive(Debug, Clone, Copy, PartialEq, Eq, Structural)]
pub struct Card {
    pub value: CardValue,
    pub suit: Suit,
}

/// The value of a hand: its count, and whether an ace is still counted as eleven.
#[derive(Debug, Clone, Copy, PartialEq, Eq, Structural)]
pub struct HandValue {
    pub count: u8,
    pub is_soft: bool,
}

/// What the player chooses to do with a hand.
#[derive(Debug, Clone, Copy, PartialEq, Eq, Structural)]
pub enum BlackjackAction {
    Stand,
    Hit,
    DoubleDown,
    Split,
}

/// How a hand ends for the player.
#[derive(Debug, Clone, Copy, PartialEq, Eq, Structural)]
pub enum GameOutcome {
    WinByCount,
    WinByBust,
    WinByBlackjack,
    Push,
    LoseByCount,
    LoseByBust,
    LoseByBlackjack,
}

/// The points a card adds to a hand before any ace is counted as one.
pub open spec fn card_points(v: CardValue) -> nat {
    match v {
        CardValue::Number(n) => n as nat,
        CardValue::Ace => 11,
        CardValue::Jack => 10,
        CardValue::Queen => 10,
        CardValue::King => 10,
    }
}

pub open spec fn is_ace(v: CardValue) -> bool {
    v matches CardValue::Ace
}

} // verus!
