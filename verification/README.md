# vigild

A service supervisor and container init daemon. The decision logic lives in a
library that is verified with Verus; a thin binary around it does the I/O.

## Layout

- `src/` — the verified library:
  - `plan`, `layers`: the plan model and the merging of layer files (later
    layers win), the choice and order of layer files;
  - `overlord`: the supervisor's state machine — service events and
    dependency handling (`after`/`before`/`requires`), check failures,
    autostart, replan, API actions and change records;
  - `check`: the health-check state machine (threshold, recovery, events),
    probe selection, exec-probe launch context, PEM chains;
  - `alert`, `alert_format`: alert de-duplication, subscriptions, retry
    policy, queue expiry, `env:` resolution and the JSON payloads;
  - `logs`: per-service ring buffers, tail and merge by time, follow filter;
  - `identity`, `auth`: identity store, access levels, HTTP Basic and local
    credentials, TLS client-certificate matching;
  - `process_util`: command parsing (shell words, `[ ... ]` default
    arguments), user and group resolution;
  - `duration`, `query`, `text`, `kv`: parsers and helpers;
  - `metrics`, `reaper`, `daemon`, `server`, `api`: metrics store, reaping,
    signal and restart decisions.
- `tests/` — tests of the library on concrete values.
- `app/` — the daemon binary: command line, YAML layer files, the HTTP API
  (axum), service processes, probes, alert delivery and signal handling.
