# vp9_parser

The boolean (arithmetic) decoder used by VP9 compressed headers, verified with Verus.

- `src/model.rs` — what the decoder computes: the state, one decoded boolean,
  literals, sub-exponential deltas and probability updates, with lemmas.
- `src/bool_reader.rs` — `BoolReader`, decoding from a borrowed `bitreader::BitReader`
  with contracts over the model.
- `src/remap.rs` — inverse recentering and remapping of probability deltas.
- `src/bits.rs` — the contract of the underlying `BitReader` calls.
- `src/laws.rs` — properties over several calls (a partition is read exactly).
