# dice

Dice notation and rolling, verified with Verus.

- `src/condition.rs` — conditions that die values are checked against, and their symbols.
- `src/modifier.rs` — rerolls, explosions and keeping the highest or lowest dice: what each
  does to a set of rolls, stated as spec functions over the values the added dice show, and
  the code that applies them.
- `src/roll.rs` — single die rolls, the rolls of a set of dice, their totals and descriptions.
- `src/dice.rs` — sets of dice, their builder, and rolling them with all their modifiers.
- `src/laws.rs` — properties of the modifiers and of rolling, proved over those spec functions.
- `src/order.rs` — die rolls ordered by value.
- `src/rng.rs` — the calls into `fastrand` that draw die values.
- `src/text.rs` — decimal notation and string comparison used by the notation code.
- `app/` — the library's error with `std::error::Error` and `Display`, through `thiserror`.
