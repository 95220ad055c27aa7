# reclaim

Find and reclaim disk space from dev junk (`node_modules`, `target/`, `__pycache__` and
friends), with the tool's decisions verified by Verus.

- `src/` is the verified library: the table of known directories and how a directory name is
  matched, what a filesystem walk keeps (marker files, not descending into matches), the
  largest-first ordering of what was found, the clean report, the start menu's answers, the
  interactive list's state machine, the per-ecosystem summary, and the exact text of sizes,
  durations and printed lines.
- `app/` is the program around it: command-line parsing, walking and sizing directories,
  deleting them, and the terminal UI.
- `tests/` runs the library on concrete values.
