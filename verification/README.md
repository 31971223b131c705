# pdc

A peer discovery node for BitTorrent, with its logic verified in Verus.

- `src/` is the library: repositories of nodes, peers, torrents and trackers; the caches,
  queues and the log under them; the services that ask trackers, peers and feeds; the
  choice of ports; the table of background tasks. Every function states in its contract
  what it returns and how it changes what it is given, over a mathematical model of each
  type. Properties that span functions stand beside them as public proof functions.
- `app/` is the program around it: sockets, the database, the configuration file, timers.
  It hands the library plain values and times, and carries out what the library decides.
- `tests/` runs the library on concrete values, the statements for the database included.

## How the library is told things

The library does not read a clock, a file or a socket. Times are arguments: `now` counts
nanoseconds that never go back, `wall` counts seconds of the wall clock. Scores are numbers
by which a score is ordered; floating point stays outside. What a database holds of an entry
is an argument too, and what is to be written comes back as rows.

## What is taken on trust

Calls into other crates stand behind small wrappers whose doc comments say what is claimed
of them: digests (`digest`), hexadecimal and UTF-8 texts (`text`), bencode (`bencode`), YAML
(`workdir`), maps
(`storage::fx_map`, `services::metadata_service`, `services::scrape_service`), the list of
recently used entries (`storage::recency`), hashing (`storage::sharded_map`), sorting
(`sorting`) and random numbers (`chance`).
