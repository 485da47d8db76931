# bijoux

Bijective, length-prefixed variable-length integer encodings — every value
has exactly one encoding and every encoding decodes to exactly one value —
written in Verus with their properties proved.

## Layout

- `src/wire.rs` — the wire format, stated once for every width: tier
  offsets, big-endian payloads, the encoding and decoding functions, byte
  order, and whole-buffer streams; the lemmas that every width relies on;
  and the shared `u128` encoder and decoder.
- `src/bijou32.rs`, `src/bijou64.rs`, `src/bijou128.rs` — the unsigned
  formats (thresholds 252, 248 and 240; 1–5, 1–9 and 1–17 bytes), also
  reachable as `bijoux::u32`, `bijoux::u64` and `bijoux::u128`.
- `src/i32.rs`, `src/i64.rs`, `src/i128.rs` — the signed formats: zigzag
  over the unsigned format of the same width.
- `src/codec.rs` — the `Encode` / `Decode` traits, implemented on the six
  integer types.
- `src/census.rs` — counts of observed signed values, to pick a single-byte
  window from data.
- `app/` — the census command-line tool, the report's text rendering, and
  the JavaScript bindings.

Each format module states, as proof functions, that values round-trip
(whatever follows their encoding), that only canonical encodings decode,
exactly when each decode error happens, that byte order is numeric order
(zigzag order for the signed formats), that a stream of encodings
decodes back to the values encoded, and that running the decoding iterator
to its end, or collecting it, gives what `decode_all` gives. The signed
modules also state that every tier is split evenly around zero.

The tier of a value is chosen in constant time: its bit width, read from
`leading_zeros`, names a candidate tier that one comparison corrects.
