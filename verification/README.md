# rowkv

A small key-value store and a row encoding, verified with Verus.

- `src/le.rs`: little-endian layouts of `u32`, `u64` and `i64`.
- `src/buf.rs`, `src/checksum.rs`: the `bytes` buffers and the `crc32fast`
  checksum, with the contracts the library relies on.
- `src/cell.rs`: typed cells and their encoding.
- `src/kv_entry.rs`: write-ahead log entries and their checksummed frames.
- `src/kv.rs`: the store's index, rebuilt by replaying the log.
- `src/row.rs`: schemas, and the encoding of a row into a key and a value.
- `app/`: the log file, the file-backed store, and printable error types.
