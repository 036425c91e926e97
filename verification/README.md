# jacks_or_better

A Jacks or Better video poker trainer. The library in `src/` is verified with Verus:

- `cards`: suits, cards, the standard deck, shuffling (through `rand`), and the
  "Js 10h Ad" card notation.
- `hand`: the paying hands, the 9/6 paytable and hand evaluation.
- `strategy`: hold masks, lexicographic enumeration of combinations, and the exact
  expected return of all 32 holds of a dealt hand, best first.
- `game`: the machine's state: bankroll, denomination, bet, deal, draw, settlement,
  grading of holds against the best play, and what a save keeps.
- `labels`, `sound`: the money labels, animation speeds and win jingle lengths.

`app/` is the egui window (through `eframe`), the sound output (through `rodio`), the
icon rasterizer, persistence, and the background thread that analyzes each dealt hand.
