# airlock_core

The authorization and dataflow model of Airlock.

- `src/capability.rs` — scopes, requests and capabilities. A capability keeps
  its scopes as a set, held in a `Vec` that its type invariant keeps sorted
  and free of repeats; `permits` is the broker's authorization decision and
  `attenuate` the only way to derive a narrower capability. `Attenuation`'s
  `==` compares its scopes as sets. The proof functions at the end state that
  attenuation never widens authority, over one hop and over chains of any
  length.
- `src/label.rs` — the confidentiality/integrity lattice, sink clearances and
  the per-session label. The proof functions state the semilattice laws and
  that a session's label only becomes more restrictive, independently of read
  order, so taint cannot be laundered and an egress denial is permanent.
- `src/text.rs` — prefix and lexicographic order on text, with their laws.
- `src/lib.rs` — `decide` and `Decision`: capability first, taint second.
- `app/lib.rs` — `std::error::Error` and `Display` adapters for the refusal
  types and labels (through `thiserror`).
- `tests/` — the unit scenarios and deterministic sweeps over small domains.
