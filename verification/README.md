# blackjack

A terminal game of blackjack. The library in `src/` holds the game's rules,
verified with Verus:

- `cards`: suits, card values, cards, hand values, actions and outcomes;
- `deck`: the standard deck, shuffling, and the opening deal;
- `hand`: the value of a hand, blackjack, bust, the dealer's rule, and how a hand is decided;
- `text`: how cards, hands and prompts are shown;
- `outcome`: settling the balance after a hand, and the message that announces it;
- `input`: what keys mean, and entering a number key by key;
- `draw`: the player's turn (hit, stand, double down, split) as a state machine.

`app/main.rs` is the program: it reads the keyboard, prints, pauses, and
drives the library's state machines.
