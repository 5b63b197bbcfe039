# cu_bincode (verified core)

A compact binary encoding toolkit, verified with Verus:

- `src/enc/write.rs` — the `Writer` trait (append, and backpatching through
  `position`/`overwrite`), `SliceWriter` over a borrowed buffer, and the counting
  `SizeWriter`.
- `src/uleb128.rs` — the `Uleb128` wrapper: ULEB128 bytes for every integer width, zigzag
  for signed values, with the round-trip and shape laws of the encoding.
- `src/attribute.rs` — reading the `#[bincode(...)]` container and field attributes of the
  derive macros, and the generic bounds that skipped fields change.
- `src/error.rs` — encoding and decoding errors.
- `src/scenarios.rs` — verified scenarios: what a caller learns of its own buffer after
  writing, backpatching or encoding through a `SliceWriter` (directly or through a
  reference), known ULEB128 encodings, and a round trip through the caller's buffer.

`app/` connects the attribute logic to virtue's tokens for a derive macro crate.
