# whister

Colour whist as a Verus library.

- `src/` is the verified library: cards and suits (`card`, `suit`), packs of
  cards (`deck`), players (`player`), the game and its rules (`game`) and the
  vocabulary of the learning agent (`fortify`). Contracts are stated over
  `Seq<Card>` views; the laws of the game stand as public proof functions
  beside the code.
- `tests/` runs the library on concrete games.
- `app/` holds what talks to a terminal (printing decks, reading a person's
  moves, the round loop) and the Q-learning agent, whose values are floats.

Randomness comes from the `rand` crate, behind two small trusted functions in
`src/deck.rs`.
