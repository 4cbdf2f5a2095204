# mmdb_writer

A writer for MaxMind DB (`.mmdb`) files, verified with Verus, and the Python
extension module around it.

`src/` is the verified library:

- `value.rs` — `MmdbValue`, the values a database holds, and its model `Datum`.
- `format.rs` — the byte formats of the data section (control bytes,
  pointers, integers, strings, values written in full) as spec functions, and
  `stored_at`, what it means for the data section to hold a value.
- `bytes.rs` — big-endian writes through the `byteorder` crate.
- `cache.rs` — the table of scalars already written, chained by fingerprint.
- `encoder.rs` — `Encoder`, which writes values to the data section, and
  `value_spec`/`own_spec`, the exact layout it writes.
- `tree.rs` — the binary search tree of networks and what each address looks up.
- `network.rs` — networks in CIDR notation, parsed by the `ipnetwork` crate.
- `writer.rs` — `MMDBWriter`: inserting networks and building the file.
- `reader.rs` — how a reader walks a built file, with the laws that the file
  answers every address as the tree does and that control bytes, pointers and
  integers read back as written.
- `options.rs` — integer and float types chosen by name, and the integer rules.
- `decode.rs` — how a reader decodes the data section, with the law that a
  value stored there decodes back to itself.

`app/lib.rs` is the Python module (`MmdbWriter`, `MmdbI32`, ...): it turns
Python objects into `MmdbValue`s, reads the clock and writes the file.
`tests/` holds tests that run the library, including a small reader that
decodes the files it builds.
