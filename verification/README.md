# kannaka-attention

Attention as gravity: a small candidate set, the **beam**, out of everything
that an agent has been observing. Recall scores the beam instead of the whole
medium, so it costs O(K) instead of O(N), however many memories there are.

The beam is put together from three tiers, in this order:

| tier | holds | read out |
|---|---|---|
| recency ring | the last observed distinct ids | most recent first |
| log-stride lookback | the strongest few of each age bucket (1m, 5m, 30m, 3h, 1d, 7d, 30d, older) | newest bucket first, newest first within it |
| landmarks | one exemplar per cluster | heaviest first, or by the salience that a gate gives them |

Each id is named once, and the beam never exceeds its budget.

## Layout

- `src/` is the library, written in Verus. The contracts of its functions are
  proved, but for three calls into chrono, and are stated over mathematical
  views of the types.
  - `beam` composes the tiers into an `AttentionBeam`.
  - `recency`, `lookback`, `landmarks` and `salience` are the tiers and the
    gates that rank landmarks.
  - `order` and `text` say what a ranking is and how labels compare.
  - `weight` is binary32 arithmetic on encodings, exact to the bit.
  - `time` and `ident` hold points in time and memory ids. `time` calls chrono
    for the clock, for differences and for spans of seconds; the contracts of
    these calls are taken on trust.
- `app/` holds the serde forms of the types, for hosts that speak serde, chrono
  and uuid.
- `tests/` runs the library.

## Laws

Beside the contracts, the public `law_*` proof functions state what holds of
the library as a whole, such as:

- the ring holds the most recently observed distinct ids (`recency`);
- a lookback never outgrows its buckets, its clock never runs backwards, and an
  entry is kept exactly if fewer entries of its bucket are stronger than there
  is room for (`lookback`);
- a snapshot of the landmarks names every exemplar once, heaviest first
  (`landmarks`), and a gate can only reorder it (`salience`);
- a beam is free of duplicates, within its budget, starts with the ring, and
  keeps the order of its tiers (`beam`).

## License

MIT.
