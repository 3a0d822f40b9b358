# rust-monitor

A small monitor for one host. It samples the kernel's counters, follows log files
and the system journal, derives DNS series from the name server's query log,
watches alert rules, and serves a dashboard behind an OpenID Connect login.

- `src/` is the library, verified with Verus: parsing of the kernel's files and of
  journal records, the DNS window, alert decisions, sessions and the login flow,
  token checks for log ingestion, base64 and URL escaping, and the collector's rhythm.
  Every function states what it returns; the public proof functions state what holds
  across several of them. The calls into other crates are in `src/outside.rs`.
- `app/` is the program around it: HTTP, SQLite, files, processes and timers, and
  the arithmetic in floating point.
- `tests/` runs the library on concrete values.
