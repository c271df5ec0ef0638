use vstd::prelude::*;

use crate::cards::{GameOutcome, HandValue};
use crate::text::{decimal, push_decimal};

verus! {

/// Whether the player wins the hand.
pub open spec fn is_win(outcome: GameOutcome) -> bool {
    outcome is WinByCount || outcome is WinByBust || outcome is WinByBlackjack
}

/// Whether the player loses the hand.
pub open spec fn is_loss(outcome: GameOutcome) -> bool {
    outcome is LoseByCount || outcome is LoseByBust || outcome is LoseByBlackjack
}

/// The balance after a hand: a win adds the bet, a loss takes it, a push keeps the balance.
pub open spec fn settled_balance(outcome: GameOutcome, balance: u32, bet: u32) -> int {
    if is_win(outcome) {
        balance + bet
    } else if is_loss(outcome) {
        balance - bet
    } else {
        balance as int
    }
}

/// What a blackjack is announced to pay: one and a half times the bet, rounded
/// down, and at most the largest `u32`.
pub open spec fn blackjack_payout(bet: u32) -> nat {
    let p = bet + bet / 2;
    if p <= u32::MAX { p as nat } else { u32::MAX as nat }
}

/// The message that announces how a hand ended.
pub open spec fn outcome_text(outcome: GameOutcome, dealer: u8, player: u8, bet: u32) -> Seq<char> {
    let d = decimal(dealer as nat);
    let p = decimal(player as nat);
    let b = decimal(bet as nat);
    match outcome {
        GameOutcome::WinByCount => "You win! ("@ + p + " to "@ + d + ") +"@ + b,
        GameOutcome::WinByBust => "You win! Dealer busted with "@ + d + ". +"@ + b,
        GameOutcome::WinByBlackjack => "Blackjack! +"@ + decimal(blackjack_payout(bet)),
        GameOutcome::Push => "Push. ("@ + p + " to "@ + d + ")"@,
        GameOutcome::LoseByCount => "You lose. ("@ + d + " to "@ + p + ") -"@ + b,
        GameOutcome::LoseByBust => "You lose. You busted with "@ + p + ". -"@ + b,
        GameOutcome::LoseByBlackjack => "Dealer blackjack! -"@ + b,
    }
}

/// Settles a hand: adds the bet to the balance on a win, takes it on a loss,
/// keeps the balance on a push, and returns the message that announces it.
pub fn handle_outcome(
    outcome: GameOutcome,
    dv: HandValue,
    pv: HandValue,
    bet: u32,
    balance: &mut u32,
) -> (message: String)
    requires
        is_win(outcome) ==> *old(balance) + bet <= u32::MAX,
        is_loss(outcome) ==> bet <= *old(balance),
    ensures
        *final(balance) == settled_balance(outcome, *old(balance), bet),
        message@ == outcome_text(outcome, dv.count, pv.count, bet),
{
    let mut m = String::new();
    match outcome {
        GameOutcome::WinByCount => {
            m.append("You win! (");
            push_decimal(&mut m, pv.count as u32);
            m.append(" to ");
            push_decimal(&mut m, dv.count as u32);
            m.append(") +");
            push_decimal(&mut m, bet);
        },
        GameOutcome::WinByBust => {
            m.append("You win! Dealer busted with ");
            push_decimal(&mut m, dv.count as u32);
            m.append(". +");
            push_decimal(&mut m, bet);
        },
        GameOutcome::WinByBlackjack => {
            let wide = bet as u64 + bet as u64 / 2;
            let payout: u32 = if wide <= u32::MAX as u64 { wide as u32 } else { u32::MAX };
            m.append("Blackjack! +");
            push_decimal(&mut m, payout);
        },
        GameOutcome::Push => {
            m.append("Push. (");
            push_decimal(&mut m, pv.count as u32);
            m.append(" to ");
            push_decimal(&mut m, dv.count as u32);
            m.append(")");
        },
        GameOutcome::LoseByCount => {
            m.append("You lose. (");
            push_decimal(&mut m, dv.count as u32);
            m.append(" to ");
            push_decimal(&mut m, pv.count as u32);
            m.append(") -");
            push_decimal(&mut m, bet);
        },
        GameOutcome::LoseByBust => {
            m.append("You lose. You busted with ");
            push_decimal(&mut m, pv.count as u32);
            m.append(". -");
            push_decimal(&mut m, bet);
        },
        GameOutcome::LoseByBlackjack => {
            m.append("Dealer blackjack! -");
            push_decimal(&mut m, bet);
        },
    }
    *balance = match outcome {
        GameOutcome::WinByCount | GameOutcome::WinByBust | GameOutcome::WinByBlackjack => {
            *balance + bet
        },
        GameOutcome::Push => *balance,
        GameOutcome::LoseByCount | GameOutcome::LoseByBust | GameOutcome::LoseByBlackjack => {
            *balance - bet
        },
    };
    proof {
        assert(m@ =~= outcome_text(outcome, dv.count, pv.count, bet));
    }
    m
}

} // verus!

verus! {

/// Winning a bet and then losing the same bet leaves the balance where it was.
pub proof fn lemma_win_then_loss_restores(win: GameOutcome, loss: GameOutcome, balance: u32, bet: u32)
    requires
        is_win(win),
        is_loss(loss),
        balance + bet <= u32::MAX,
    ensures
        settled_balance(loss, settled_balance(win, balance, bet) as u32, bet) == balance,
{
}

} // verus!

verus! {

/// Settling a hand: a win by count, by the dealer's bust or by blackjack adds
/// the bet; a push keeps the balance; a loss by count, by bust or to the
/// dealer's blackjack takes the bet. A blackjack is announced as paying one
/// and a half times the bet, rounded down, capped at the largest `u32`.
pub proof fn lemma_settle_law(balance: u32, bet: u32)
    ensures
        settled_balance(GameOutcome::WinByCount, balance, bet) == balance + bet,
        settled_balance(GameOutcome::WinByBust, balance, bet) == balance + bet,
        settled_balance(GameOutcome::WinByBlackjack, balance, bet) == balance + bet,
        settled_balance(GameOutcome::Push, balance, bet) == balance,
        settled_balance(GameOutcome::LoseByCount, balance, bet) == balance - bet,
        settled_balance(GameOutcome::LoseByBust, balance, bet) == balance - bet,
        settled_balance(GameOutcome::LoseByBlackjack, balance, bet) == balance - bet,
        3 * bet <= 2 * u32::MAX + 1 ==> 2 * blackjack_payout(bet) <= 3 * bet < 2
            * blackjack_payout(bet) + 2,
        3 * bet > 2 * u32::MAX + 1 ==> blackjack_payout(bet) == u32::MAX,
{
}

} // verus!
