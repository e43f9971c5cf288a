# plato_sim_bridge

Fleet simulator to PLATO tile bridge: simulation events and sentiment
snapshots go in, extracted patterns and training tiles come out.

```
Simulate → Extract Patterns → Convert to Tiles → Train Rooms
```

## Layout

- `src/` — the verified library.
  - `event.rs` — event kinds, which of them are problems, their names; events.
  - `sentiment.rs` — sentiment snapshots and readings (snapshot plus health).
  - `extractor.rs` — the pattern extractor: what it finds, specified and proved.
  - `order.rs` — stable ordering by integer keys (events by tick, patterns by
    quality).
  - `pattern.rs` — pattern kinds, found patterns, scoring and ranking.
  - `text.rs` — decimal numbers and the texts of patterns.
  - `tile.rs` — tiles, their tags and content, conversion and statistics.
  - `laws.rs` — properties of extraction, scoring and ranking as a whole.
- `tests/` — tests of the library.
- `app/` — the floating-point side: sentiment distance and health, quality
  scores, numbers written with decimals, the quality filter and average.

Fractions (severities, sentiment values, qualities) are held in the library
as the bit patterns of `f32` values and never computed with there; `app/`
does the arithmetic and comparisons on them and hands back plain values.
