# takt

A time tracker that encourages focusing on one thing at a time: hierarchical
tags, a human-readable log, and reports of time per tag.

- `src/` is the library, verified with Verus: the tag tree (`tags`), the task
  log (`log`), reports (`report`), the status line (`status`), the file layout
  and database row conversions (`store`), and the calendar and span arithmetic
  they rest on (`datetime`, with chrono doing the calendar work behind small
  trusted wrappers).
- `app/` is the `takt` command line around it: argument parsing, files, the
  SQLite backend and the HTTP server.
- `tests/` exercises the library on concrete values.
