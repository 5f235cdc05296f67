# procwatch

A process-monitoring daemon: it reads per-process resource figures from
`/proc`, raises alerts when thresholds are crossed, and delivers them to
webhooks, guarded by circuit breakers, throttles, cooldowns, debouncing and
deduplication.

## Layout

- `src/` — the library, written in Verus. Every function there carries a
  contract (`requires` / `ensures`) that Verus proves: the rate limiters and
  their time windows, the circuit breaker's state machine, the buffers and
  drains, the audit log, labels and selectors, the filter chain, the alert
  dispatch decisions, the notifier's decisions, health and heartbeat status,
  and the parsing of `/proc` files and webhook addresses. Laws that relate
  several calls stand as public `proof fn`s beside the functions they speak of.
- `app/` — the daemon program around the library: reading the configuration,
  the files under `/proc`, sending over the network, and the parts that work on
  floating-point readings (averages, deviations, percentages).
- `tests/` — tests of the library on concrete values.

Time is measured in nanoseconds. Where a result depends on the clock, a
verified function takes the clock reading or the ages as arguments and its
contract pins the result (`..._at`, `..._after`, `..._aged`, and the readings a
timed drain reports); the function that reads the clock itself is stated as
that function applied to some reading. A health report's uptime and the instants
stored for heartbeats, checkpoints, events and notifier attempts are clock
readings of which nothing more is stated.
