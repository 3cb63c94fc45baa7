# aprs_parser

A codec for APRS packets in their textual form (`FROM>TO,PATH:body`),
written in Verus: every decoder and encoder carries a contract over
mathematical models of the bytes, and the round trips between them are
proved.

## Layout

- `src/` — the verified library.
  - `packet.rs`: whole packets, the dispatch of a body on its data type
    identifier, and the packet-level laws (decoding what was encoded gives
    the packet back; encoding what was decoded gives the text back for the
    bodies that are written one way only).
  - `callsign.rs`: callsigns and path elements (digipeaters and q-constructs).
  - `components/lonlat.rs`: latitudes and longitudes, held exactly as integers
    of `1 / UNITS_PER_DEGREE` degree, in their uncompressed and compressed
    forms, with the precision (position ambiguity) of the uncompressed form.
  - `components/position.rs`: the head of a position report, the altitude
    and the `!DAO!` extension found in its comment.
  - `compressed.rs`: the course/speed, radio range or altitude bytes of a
    compressed position and the compression type.
  - `message.rs`, `grid.rs`, `nmea.rs`, `user_defined.rs`, `third_party.rs`,
    `weather.rs`, `telemetry.rs`: the other kinds of bodies.
  - `text.rs`: byte-level text helpers (digits, `str::trim`, UTF-8 checking,
    zero-padded numbers) and their specifications.
  - `error.rs`: the decoding errors.
- `app/` — plain Rust around the library: floating-point views of the exact
  values (degrees, DAO offsets, bounding ranges, speeds, altitudes, numeric
  telemetry values) and a writer for `std::io::Write`.
- `tests/` — tests of the library on concrete packets.
