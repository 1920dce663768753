# ardupilot_binlog

A parser for ArduPilot DataFlash BIN logs, verified with Verus.

A log is a sequence of messages, each a 3-byte header (`0xA3 0x95` and a
message type) and a payload. FMT messages (type `0x80`) define the other
message types: their length, name, field format string and field labels.
The reader discovers those definitions as it goes, decodes every message by
the definition of its type, and on corrupt data scans forward to the next
header.

## Layout

- `src/` — the verified library.
  - `endian.rs`: little-endian integers.
  - `text.rs`: NUL-padded strings, label lists, synthetic labels.
  - `value.rs`: decoded field values.
  - `format.rs`: message formats, field decoding, FMT payloads, timestamps.
  - `entry.rs`: parsed messages and field lookup.
  - `reader.rs`: the parser state machine over the bytes of a log, with its
    model and the laws it keeps.
  - `file.rs`: a whole log in memory and its time range.
- `app/` — what sits around the library: files and byte streams, error
  display, serialization, and the `f64` view of floating-point fields.
- `tests/` — tests of the library.

Floating-point fields are held exactly as stored: `f` and `d` fields as their
IEEE-754 bit patterns, the scaled `c`, `C`, `e`, `E` fields as the stored
integer (the value times 100).
