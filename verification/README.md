# mlat-bench

A replay and benchmark harness for Mode S multilateration (MLAT) servers, written
in Verus. It generates receiver traffic with known ground truth, sends it to a
server over the mlat-client protocol, and scores what comes back. A server
(`mlatd`), its first candidate, and a feeder client (`mlatc`) are developed against
it.

- `src/` is the library: Mode S frames, the wire protocol and its compressed
  framing, captures, the simulation's clocks, scenarios and client streams, the
  feeder's engine and session, the server's sessions, shards, grouping and
  publication rules, and scoring. Its functions are verified against their
  contracts, and public proof functions named `law_…` state what holds across
  functions. What is believed without proof are the contracts of the calls into
  other crates and of a few functions of std, each in a small wrapper or
  specification whose comment says what is claimed: `flate2` streams
  (`proto/framing.rs`), `serde_json` values (`proto/json.rs`), `hex`
  (`proto/messages.rs`), `zstd` (`capture.rs`), `sha2` and `rand_chacha` (`seed.rs`),
  and text functions of std (`text.rs`, `client/session.rs`).
- `app/` is the program around it: sockets, files, tasks, and arithmetic in
  floating point. The library takes such numbers as readings that it compares and
  orders, or as the text that they are written with.
- `tests/` runs the library.
