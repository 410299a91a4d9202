# habitsync

An offline-first sync server for a habit tracker. Clients push their records
(habits and check-ins) with their own write times and pull what changed since
their cursor; the server merges with last-write-wins, a delete beating an edit
on an identical timestamp.

- `src/` is the verified library (Verus): text order (`text`), records
  (`model`), the id-ordered record table with last-write-wins merging and
  deltas (`sync`), the server state with the sync round, the habit listing and
  the analytics report (`store`), calendar day numbers and date parsing
  (`calendar`), streaks and completion counts (`analytics`), and request
  routing (`routes`).
- `app/` is the HTTP server around it: tiny_http, the JSON wire and file
  formats (serde copies of the records), the state file and the clock.
- `tests/` exercise the library on concrete values.
