# tetris

A falling-blocks game whose rules are a verified Verus library.

- `src/` — the library, verified by Verus:
  - `piece.rs`: the seven pieces and the cells they cover in each rotation;
  - `board.rs`: the 10x20 field, collision, settling a piece, clearing full rows;
  - `game.rs`: the actions on the falling piece (moves, turns, gravity, hard drop);
  - `bag.rs`: the bag of pieces (one of each kind, shuffled with `rand`) and dealing;
  - `input.rs`: what a key press means on each screen, and the repeat of a held arrow;
  - `display.rs`: which cells are drawn and when the field is shown.
- `tests/` — tests of the library on concrete values.
- `app/` — the bevy program around the library: window, keyboard, timers, sprites and text.
