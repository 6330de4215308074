# selfpilot

The rules of SelfPilot, a personal goal tracker: goals form a tree, goals are
split into daily tasks, tasks depend on each other, progress and streaks are
computed, encouragement texts are drawn, and backups are checked and planned.

- `src/` — the library, verified with Verus. Amounts are kept in hundredths
  and days as day numbers; every public function states its result in its
  contract (where chance or the clock decides, what holds of every outcome:
  the weighted draw says which roll picked which candidate), and `src/laws.rs` states and proves the properties that tie the
  functions together (splits add up, moves keep the goal tree free of cycles
  and its paths consistent,
  progress adds up over sub-goals, imports account for every record, ...).
- `tests/` — tests of the library on concrete values.
- `app/` — the commands of the desktop application: they read the SQLite
  store, ask the library what to do, and write the outcome back.
