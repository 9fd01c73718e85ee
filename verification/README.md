# devkit

Four small command-line tools for developers — `pw` (ports), `envdiff`
(.env files), `gitwho` (git authorship) and `procmap` (process tree) — whose
logic is a library verified with Verus.

## Layout

- `src/` — the verified library.
  - `text.rs`: character-level helpers (trimming, splitting, searching,
    integer parsing as `str::parse` does it).
  - `env.rs`, `env_diff.rs`, `env_report.rs`: the .env parser, the
    comparison of several files, and what the comparison shows (masking,
    CI text, column widths).
  - `git_log.rs`: `git log --numstat` output parsed into commits, and
    per-author aggregation; `--since` shorthands.
  - `port_args.rs`, `port_scan.rs`, `kill.rs`: port arguments, listening
    ports read from `lsof` output, and the SIGTERM/SIGKILL procedure as a
    state machine.
  - `proc_net.rs`, `proc_tree.rs`, `proc_view.rs`: connections per process,
    the process tree with port-range pruning, and its flat and ASCII forms.
  - `tui_state.rs`: key handling, selection, scrolling and collapsing of
    the two interactive views.
- `tests/` — tests of the library on concrete values.
- `app/` — the binary: argument parsing, files, `lsof`/`git`/`sysinfo`,
  signals, terminal UI and printing. It picks the tool by the name it is
  invoked under, or by its first argument.
