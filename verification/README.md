# terracotta_server

A headless host for Terracotta rooms: it exposes a Minecraft server through
an EasyTier network and answers Terracotta's scaffolding protocol.

`src/` is the library, verified with Verus:

- `room` — connection codes `U/XXXX-XXXX-XXXX-XXXX` (base 34, multiples of
  7), the network name and secret derived from them, parsing (case and
  `O`/`I` look-alikes ignored) and random rooms; with the round-trip,
  canonical-parse and look-alike laws.
- `config` — the configuration, its port check, the default file text and
  the choice of room.
- `easytier` — the arguments of `easytier-core` and `easytier-cli`, the
  port-forward retry policy, IPv4 text and the peer list.
- `scaffolding` — the profile table (host first, guests after, distinct
  machine ids), guest expiry, request kinds, answers and response framing.
- `codec` — serde_json, hex and UTF-8 conversions the library calls.
- `text` — character helpers (decimal numbers, splitting, comparison).

`app/` holds the program around it: command line, logging, configuration
file, sockets, processes and threads. The EasyTier executables are read from
`easytier.7z` beside the server binary.
