# Belt lines, verified

Conveyor belts for a factory simulation, written in Verus. A belt line is a
queue of items, front first; each item remembers the gap between its back and
whatever is in front of it. Ticking a belt moves the front-most item that has
slack forward (never closer than the item separation) and spreads out items
packed more tightly than that.

Layout:

- `src/belt/model.rs`: the mathematical model (gaps, cursors, cache) and the
  effect of every operation on it, with the laws proved over it.
- `src/belt/mod.rs`: `BeltLine` and its views, proved against the model.
- `src/util/`: `NonMaxUsize`, `NonZeroUsize`, and the generational `IdMapper`.
- `src/inventory/`: item slots that fill up to a maximum stack size.
- `src/polyfill/`: `Option` helpers.
- `tests/`: runtime tests.
