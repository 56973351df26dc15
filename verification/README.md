# gitsync

The core of GitSync, an interactive Git history browser, as a library
verified with Verus. The rules that decide what the desktop front end shows
or writes live in `src/` with contracts, and the properties the tool
promises are stated and proved there as proof functions named `law_*`.
What git2, SQLite and the file system answer is read in `app/` and handed
to the library as plain values; where the library itself calls SQLite, the
contracts say what it hands over and what it does with the answer, not
what SQLite answers.

## Layout

- `src/conflict.rs`: reading merge-conflict files and writing back the
  chosen resolutions.
- `src/paths.rs`: which relative paths from the front end are safe, and
  whether a resolved path stays under its base.
- `src/diff.rs`: hunk headers, word-level highlights, grouping patch lines
  into hunks, per-file change statistics.
- `src/history.rs`: commit records, time formatting, search, filtering,
  paging and the changelog.
- `src/analysis.rs`: hot files, contributor statistics, the health report
  and the Markdown report.
- `src/rebase.rs`: planning an interactive rebase and deciding whether one
  is refused.
- `src/blame.rs`, `src/search.rs`, `src/tree.rs`: blame lines, searching
  changed lines and following a file, the sorted file tree.
- `src/repo.rs`: branch list, checkout target, rebase preconditions, time
  machine, hooks.
- `src/sql.rs`: the query console's `CONTAINS` dialect, error messages,
  read-only authorization, the query tables' rows and cell text.
- `src/query.rs`: the query console's engine on an in-memory SQLite
  database.
- `src/encoding.rs`, `src/text.rs`, `src/numbers.rs`: Base64, character
  helpers, number parsing.
- `app/`: the Tauri commands that read the repository with git2 and the file
  system, call the library and send its answers to the front end.
- `tests/`: tests of the library on concrete values.

Calls into `similar`, `chrono`, `base64`, `rusqlite` and a few std functions
that vstd does not specify stand behind small trusted wrappers whose
contracts say what the library relies on.
