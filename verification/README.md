# tsuji

A local, file-based chat log that sessions on one machine share: one JSON
Lines file per channel, one message per line, each message identified by a
ULID whose text orders as its time.

Layout:

- `src/` — the library, verified with Verus:
  - `message/id.rs`: ULID texts, their validation, and the proof that their
    lexicographic order is their numeric (time) order.
  - `message/record.rs`: messages and timestamps.
  - `storage/`: the storage root and channel paths, framing records as lines,
    reading a log back into records, the `--since` cursor, channel listing.
  - `cli/`: argument validation and the decisions of `send`, `read`
    (including `--follow`, `--from-now`, `--exclude-from`) and `members`.
  - `pretty.rs`: the human-readable rendering.
  - `text.rs`: string order, sorting, decimal rendering, blank lines.
- `app/` — the executable: command-line parsing, environment, files, locks,
  JSON, standard input and output.
- `tests/` — tests of the library.
