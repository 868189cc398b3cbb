# shell_core

The core of a shell: a session (`ShellCore`) with its directories, history, session
storage, aliases, functions and environment; a Bash tokenizer and statement parsers; a
runner that executes shell expressions; and the rules by which a pipeline of tasks is run.

The library under `src/` is written in Verus and verified against its `requires` /
`ensures` contracts, and the laws of the library (history order and size, the directory
stack, the pipeline relations, path equality, statement equality, ...) are proof
functions next to the code they speak of. Where a result comes from the host (a process,
a file, the user), the contracts state what the library does with the answer it got, and
what holds of every answer; the doc comment of such a function says what it leaves
unstated. Of the statements an expression runs, `full_effect` says what each one did;
for `case`, `for`, `while`, `source`, `history` and the re-run of a history entry it says
less than for the others (see its doc comment).

Layout:

- `src/session.rs` — `ShellCore`, and the `ShellHost` trait through which the session
  reaches the operating system.
- `src/runner.rs` — `ShellRunner`, task chains, and the decisions of the loop that waits
  for a pipeline.
- `src/parsers/` — the Bash tokenizer (`tokenizer.rs`), its block state machine
  (`state.rs`), the statement parsers (`bash.rs`), and the builtins whose arguments are
  command line options read by getopts (`options.rs`, `builtin_options.rs`).
- `src/tasks/` — tasks and pipelines (`task.rs`), the task manager's controller end
  (`manager.rs`) and the pipeline scheduling rules (`pipeline.rs`).
- `src/statement.rs`, `src/paths.rs`, `src/math.rs`, `src/text.rs`,
  `src/collections.rs`, `src/streams.rs` — statements and their equality, path
  comparison, the arithmetic of `let`, text helpers, string-keyed tables, and the
  channels between the shell and its user.
- `app/` — the operating-system side: processes, files, environment, globbing, and the
  worker thread of a task manager.
- `tests/` — tests against a simulated host, and wildcard tests against the file
  system (`fs_tests.rs`).
