# portsmith_replay

Reading, writing and replaying portsmith trace files (format v1), verified
with Verus.

- `src/text.rs` — decimal integers: rendering, and parsing with the
  acceptance rules and error kinds of `str::parse` for `i64` and `usize`.
- `src/base64.rs` — standard base64 encoder and decoder (padding only at
  the end); the laws that decoding undoes encoding and that canonical text
  is the encoding of what it decodes to.
- `src/trace.rs` — records, one trace line per record: `encode`,
  `decode_line`, `read_all` over the lines of a file; the law that a record
  is decoded from its own line unchanged.
- `src/replay.rs` — grouping records by session, the replay run as a state
  machine (`replay`, `Replayer::step`) and the report with its summary; laws
  on grouping and on every step.
- `src/std_text.rs` — what the library takes from std without proof.
- `app/main.rs` — the command line: files, sockets, the clock.
