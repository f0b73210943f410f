# fluxfang

Verified core of FluxFang's attribution-evidence features, written in Verus.

- `src/rf_diff.rs` — the RF-picture window diff: which emitters appeared,
  went dark or persisted between two windows, with count deltas, each list
  in name order. Laws: the diff partitions both windows, reversing the
  windows swaps the lists and negates the deltas, a window diffed against
  itself only persists.
- `src/correlate.rs` — the decisions of the periodic correlation pass: an
  emitter's model (its `model` attribute), the same-model pairs the pass
  examines, and the bounded frame of the co-occurrence witness.
- `src/evidence.rs` — the subject filter of the attribution-evidence store,
  with the law that a pair is found from either emitter.
- `src/lexical.rs`, `src/timestamp.rs` — the string and instant orders used above.
- `app/` — the unverified I/O around the library: PostgreSQL access through
  `sqlx`, JSON witnesses, and serialisable copies of the library's types.
