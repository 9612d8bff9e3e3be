# oldrar

A reader and writer for RAR 1.3/1.4 archives (the `RE~^` family), written in
Verus: the library's behaviour is stated in `requires`/`ensures` contracts and
proved.

## Layout

- `src/detect.rs`, `src/version.rs`, `src/features.rs`: signature detection
  (including self-extracting stubs), format versions and writer features.
- `src/rar13.rs`: the archive model (main header, file headers, entries) and
  the parser, specified by `archive_result`.
- `src/entry.rs`, `src/extract.rs`: reading entries: stored data, decryption,
  checksums, comments, authenticity verification blocks, extraction.
- `src/volumes.rs`: joining split entries across volume sets
  (`split_scan`, `volume_files`).
- `src/writer.rs`: the stored and compressed writers and the volume writer;
  the headers and the stored writers are specified byte for byte
  (`main_header_bytes`, `file_record_bytes`, `stored_records`,
  `volume_bytes`), the compressed payloads by their framing only.
- `src/roundtrip.rs`: what reading back a written archive or volume set gives.
- `src/checksum.rs`, `src/crypto.rs`: the rolling checksum and the password
  cipher, with their algebraic laws.
- `src/codec.rs`, `src/unpack.rs`, `src/pack.rs`, `src/bitio.rs`: the
  Unpack15 decoder and encoder and their bit streams; `src/decoding.rs`
  states, step by step, what the decoder makes of a packed stream.
- `src/cli.rs`: the command line's decisions: options, numbers, safe output
  paths and volume names.
- `app/main.rs`: the command-line program (file I/O and printing).
