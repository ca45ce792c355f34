# cursor_api

Protocol-buffer wire encoding, UTF-8 byte strings and the small value types
built on them, written in Verus and proved against their contracts.

- `src/varint.rs`, `src/varint/`: LEB128 varints and ZigZag, per protobuf type.
- `src/fixed_width.rs`, `src/fixed_width/`: little-endian fixed-width values.
- `src/wire_type.rs`, `src/error.rs`, `src/buf.rs`: wire types, decode errors,
  and the read cursor every decoder takes.
- `src/encoding.rs`, `src/encoding/`: field keys, skipping unknown fields,
  length-delimited regions, and the encoders and decoders of every field kind,
  messages, groups and map fields.
- `src/message.rs`: the interface a message type offers to the encoders.
- `src/utf8.rs`, `src/byte_str.rs`: UTF-8 validation and a byte string that
  always holds UTF-8.
- `src/proto_value.rs`, `src/proto_value/`: open enums, `bytes` values with
  their Base64 text, defaults, and 64-bit integers written as text.
- `src/bucket.rs`: the least-recently-used list of a hash-table bucket.
- `src/tree_index.rs`: the state machine of a bulk range removal.
- `src/rep_move.rs`: iterators that replicate a value and move it out last.
- `app/`: serde support for the value types, built on the library.
- `tests/`: tests run against the compiled library.
