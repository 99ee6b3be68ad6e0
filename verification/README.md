# flap

Flap is a minimal stack-based esoteric programming language. This crate holds its
lexer, its error diagnostics and its interpreter, each with a contract proved by Verus,
and the `flap` command-line tool around them.

## Layout

- `src/text.rs` — character classes, decimal numerals, parsing of numbers.
- `src/lexer.rs` — source text to tokens (`lex`), with `lex_spec` saying what the tokens are.
- `src/diagnostic.rs` — line, column and source line of an error position.
- `src/config.rs` — the run limits and their defaults.
- `src/semantics.rs` — the machine model (`Machine`) and one step of it (`step_spec`).
- `src/interpreter.rs` — the executable interpreter, proved to follow `step_spec`.
- `src/clock.rs` — the wall clock behind the time limit (trusted: readings unstated,
  durations compared and built by name).
- `src/install.rs` — the installers' decisions: which release asset to take (the bare
  binary, else the archive that self_update's `asset_for` picks), how `PATH` grows.
- `src/repl.rs` — the REPL's per-line decisions: stop, skip or run (the trimmed line), and
  which stack carries over to the next line.
- `src/laws.rs` — properties across commands, steps and runs.
- `app/` — the command-line tool: files, terminal, `flap.toml`, self-update; started as
  `flap_installer` or `flap-init` it runs the installers (download, extraction, registry
  and shell profiles).

The interpreter performs no I/O itself: printed bytes collect in its output buffer, and
when a reading command lacks input the run stops with `AwaitingInput` until the caller
supplies bytes (`supply_input`) or the end of input (`close_input`).

## Language notes

- `/` and `%` push 0 when dividing by zero; `i64::MIN / -1` wraps to `i64::MIN`.
- `+`, `-`, `*` wrap around on overflow.
- `]` jumps back to just after its `[` while the top of the stack is non-zero.
- `T` reads one line and pushes its bytes, the last one on top; the line feed (and a
  carriage return before it) is not pushed.
