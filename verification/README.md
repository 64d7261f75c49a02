# meeting_assistant

A meeting assistant's engine logic as a Verus-verified library: durable chunked capture and its
recovery and consolidation, the sample-accurate timeline, meeting detection over signal
timelines, the engine's control channel (protocol, methods, events, queueing, routing and
authorization), the browser extension's loopback channel, signed update manifests, and
idempotent exports to remote destinations.

Layout:

- `src/` — the library. Every function carries a contract that Verus proves; calls into
  outside crates (hashing, signatures, UUIDs, FLAC, JSON, randomness, clocks, channels) sit
  behind small trusted wrappers whose contracts are documented where they are declared.
- `tests/` — executable tests of the library.
- `app/` — the `ma-diag` program around the library: files, sockets, threads, JSON on disk, and
  the two pieces that compute in floating point (sample-rate conversion and echo-level
  measurement).
