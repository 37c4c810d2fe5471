# akurai-dns

An authoritative DNS server. The library (`src/`) holds the logic, verified
with Verus; the program (`app/`) does the networking and file reading around it.

## Library

- `dns.rs` — message types, record constructors, the message API (responses,
  response codes, EDNS0).
- `parse.rs` — the decoder, with compression pointers and loop detection.
- `serialize.rs` — the encoder, with name compression and size-limited output.
- `roundtrip.rs` — decoding what the encoder writes gives back the message's
  wire form (names lower-cased and fully qualified; the message itself when it
  is already in that form).
- `zone.rs` — zones built from zone file descriptions, record lookup, the
  choice of the zone responsible for a name (longest suffix), building a zone
  set from a directory's files (all of them or none), and the zone set kept
  after a reload.
- `server.rs` — query answering, UDP truncation, TCP framing, per-client rate
  limiting (100 requests per second).
- `presentation.rs` — the text form of record data.
- `text.rs` — character helpers and the string functions of `std` they use.

## Program

`app/main.rs` reads `DNS_ZONE_DIR`, `DNS_LISTEN` and `DNS_PORT`, loads the
`.toml` zone files (`app/zone_files.rs`) and serves UDP and TCP
(`app/network.rs`); SIGHUP reloads the zones, keeping the old set when the
new one does not load.
