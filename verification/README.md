# logdrain

Online log-template mining (the Drain algorithm, with masks, path-preserving
tokenization, stack-trace clustering and snapshots), written in Verus: the library's
behaviour is stated in `requires` / `ensures` contracts over plain mathematical models
and proved.

## Layout

- `src/` — the verified library.
  - `tokenize`, `mask`, `builtin_masks`: turning a line into tokens.
  - `similarity`, `cluster`, `tree`, `shards`, `table`, `miner`: clustering. `Miner::observe` is
    specified exactly by `spec_observe` (match the most similar cluster of the leaf the
    line's tokens lead to, else create one, evicting the least recently used cluster of
    a full leaf).
  - `consistency`: the invariant that tree and table agree, and the laws the miner
    keeps (a line matches the cluster it was just added to; re-adding it changes nothing
    in the template; a restored snapshot gives back the clusters it was taken from).
  - `snapshot`, `persistence`: the snapshot format and the in-memory backend.
  - `options`, `error`: configuration and errors.
  - `event_time`, `ingest`, `records`, `format`: what the command line computes —
    timestamps, JSON fields, record framing, ordering and rendering of clusters.
- `tests/` — tests of the library.
- `app/` — the command line and the backends that do I/O (file, Redis, Kafka); rates,
  which are floating point, and JSON output are computed there.

Similarity thresholds are exact fractions (`Ratio`), and times are unix milliseconds.
