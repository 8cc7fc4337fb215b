# uptime_kuma_rs

A read-only service that polls an Uptime Kuma public status page, keeps a local heartbeat
history and serves monitors, uptime windows and incidents as JSON.

- `src/` is the verified library (Verus): status-page mapping, heartbeat extraction, uptime
  window arithmetic and the per-monitor uptime figures (`uptime.rs`), incident reconstruction from stored history (with, in `runs.rs`, the
  proof that it yields one incident per maximal run of down heartbeats of each monitor),
  the poll loop's decisions (`poll.rs`: which step follows which outcome, and that a failed
  poll publishes nothing), the snapshot cache, error status mapping and configuration
  defaults. Calls into `chrono` and `std` go through small trusted wrappers whose contracts
  are documented next to them.
- `app/` is the binary around it: configuration loading (figment), HTTP polling (reqwest),
  SQLite persistence (sqlx), the axum router and the tokio task that carries out the poll
  loop's decisions, plus the floating-point uptime ratios
  (computed from stored counts; the library carries the figures without computing on them).
- `tests/` exercises the library on concrete values.
