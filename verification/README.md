# binlog_events

Parsers for the bodies of three binary-log events, verified with Verus: MySQL's `Gtid_event`,
MariaDB's `Gtid_log_event` and the `Query_event` of both.

- `src/bytes.rs`, `src/text.rs`: little-endian numbers, UTF-8, hexadecimal and decimal text.
- `src/cursor.rs`: the cursor that the parsers read from. Each read has a specification
  function (`uint_at`, `packed_number_at`, ...) that says what it gives and where it ends.
- `src/event/`: the events. `gtid_event_at`, `mariadb_gtid_event_at` and `query_event_at` say
  what the bytes of a body mean; each `parse` is proved to return exactly that, errors and the
  final position of the cursor included.
- `src/laws/`: what follows for whole events, such as that what a server writes is read back.
- `src/wire.rs`: the calls into `byteorder`, with the contracts that are believed of them. The
  two functions of `String` that are believed are declared in `src/text.rs`.
- `app/`: the same events with `serde` on them, read from a standard cursor.
