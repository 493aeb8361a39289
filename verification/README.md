# ThrashGuard

A behavioural circuit breaker for AI coding agents: it watches which files an
agent writes and reads and which outcomes it then sees, detects the agent
returning a file to a state that keeps failing the same way, and injects an
operator note that states the loop and points at a file read but never edited.

## Layout

- `src/` — the verified library (Verus).
  - `model`, `policy` — turns, observations, thresholds.
  - `text`, `assoc` — character-level text functions and association lists,
    each specified over `Seq`.
  - `fingerprint` — whitespace-normalised fingerprint, Levenshtein distance,
    near-duplicate test (exact rational threshold in ten-thousandths).
  - `detector` — the streaming detector: `ingest` is proved to compute one
    `step` of an abstract state machine (`DetectorModel`).
  - `intervention` — the note injected on a trip.
  - `json`, `anthropic` — the Messages API body as plain values; turn
    extraction, analysis and injection.
  - `proxy` — the proxy's decisions: forwarded headers, upstream URL,
    settings, interception.
  - `tui`, `demo` — the replay demo's rendering and built-in scenario.
  - `laws` — properties that span functions, stated and proved as proof
    functions.
- `tests/` — tests of the library on concrete values.
- `app/` — the program: `thrashguard [demo] [FIXTURE.json] [--fast]
  [--aggressive]` replays a session; `thrashguard proxy` runs the HTTP proxy
  (axum/reqwest/tokio). It reads files, the environment and the network,
  converts JSON and headers to and from the library's types, and prints.
