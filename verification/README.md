# gin_rummy

The mechanics of two-player gin rummy, proved with Verus: cards and card
sets in a 64-bit layout, melds and an exact deadwood solver, the rules-driven
state machine of a round, and the scoreboard of a game.

## Layout

- `src/` is the verified library.
  - `bits.rs`: the bit model every card set is built on (`bit`, `count`,
    `pips`, lanes), with its set-algebra laws.
  - `hand.rs`: `Rank`, `Card`, `Holding`, `Hand` and their iterators.
  - `notation.rs`: the text forms and their parsers, specified as functions
    on characters, with display/parse round-trip laws.
  - `meld.rs`: `Meld`, `Melds`, the table of all melds and the
    branch-and-bound solver, proved equal to the minimum over every
    arrangement (`min_deadwood`).
  - `round.rs` and `repr.rs`: the `Round` state machine, its snapshot form
    and the validation that re-checks a snapshot, with the laws that every
    action keeps all 52 cards in exactly one place.
  - `game.rs`, `rules.rs`, `player.rs`, `deck.rs`: scoring across rounds,
    rule presets, players, and random dealing through `rand`.
- `tests/` exercises the library from outside.
- `app/` holds what Verus does not see: the serde forms, the error types
  with their messages, and the display text of the library's values.
