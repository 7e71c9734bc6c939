# poker_puzzle

The rules of a card-deduction puzzle, verified with Verus. A shuffled pack is dealt onto a
5 x 5 board of two planes; every row and column of each plane is a line of five cards whose
poker hand is given as a clue. One tile per row and column of each plane is hidden, and the
player guesses the hidden cards until every clue's line makes its hand.

- `src/cards.rs` – suits, values, cards and the pack (`Stack`).
- `src/poker.rs` – which poker hand a line of cards makes (`identify_hand`).
- `src/deal.rs` – dealing the board from a pack and keeping only interesting deals.
- `src/game.rs` – tiles, clues and the player's moves, the checks of the guesses, and the
  laws of a fresh puzzle (one hidden tile per line; the true cards win) and of the check
  (checking twice changes nothing).
- `src/input.rs` – which messages the pressed keys ask for.
- `app/` – the windowed game on bevy: input, layout, rendering and fireworks.
- `tests/` – the tests of the library.
