# mtr_runner

A runner for MySQL/MariaDB MTR-dialect compatibility tests against the Zeta
server, with its logic verified in Verus.

- `src/` is the verified library:
  - `text` — character-level helpers (`str::lines`, trimming, splitting,
    decimal rendering) with their specifications;
  - `order` — the lexicographic order of text and of paths, and sorts proved
    against it;
  - `mtr_parser` — the MTR script parser (`#` comments, multi-line SQL ended
    by `;`, `--sorted_result`, `--error <codes>`, `--echo <text>`);
  - `result_diff` — line-level comparison with a mismatch report;
  - `runner` — result rendering: which statements return rows, cell values,
    rows, sorting a result block;
  - `session` — the state machine of one test script run;
  - `suite` — choosing a suite's test files and its verdict;
  - `skip_list` — the skip list, keyed by test path.
- `app/` is the command-line program: argument handling, the server handle,
  file and database I/O, TOML loading of the skip list.
- `tests/` exercises the library.
