# contextmink

Bounded context evidence: a library of verified rules for inspecting a workspace
without flooding a transcript, and the command-line tool around it.

Every command leaves a receipt that says what was looked at, what is shown, which cap
was reached and which option raises it. The rules behind it are in `src/`, written in
Verus: each function states what it returns in its contract, and Verus proves it.

- `output` holds receipts: caps, completeness and clamped text.
- `files`, `files_report`, `dirs`, `grep`, `grep_scan`, `slice`, `paths`, `globs`,
  `text`, `encoding`, `encoding_suspects` and `lines` select, search and show files.
- `json`, `json_input`, `json_pointer`, `json_find`, `json_select` and
  `json_select_output` read and project JSON and JSONL.
- `sqlite`, `sqlite_params` and `sqlite_schema` hold the rules of read-only queries.
- `capture` and `capture_report` keep a bounded record of a child's output.
- `shell_text`, `shell_parse`, `shell_laws`, `braces`, `program`, `deletion`,
  `destructive_guard`, `hook_guard` and `guard_check` decide whether a command is
  destructive.
- `process_boundary`, `bridge`, `base64`, `hex` and `msys_arguments` carry arguments
  over process boundaries unharmed.
- `project_files`, `project_receipt`, `project_setup`, `project_uninstall`,
  `setup_laws`, `setup_report`, `user_setup` and `destinations` plan installations.
- `cli` and `config` hold the rules of the command line and of `.contextmink.toml`.
- `strings`, `numbers`, `ordering`, `digest` and `versions` serve the others.

What cannot be verified is in `app/`: reading and writing files, walking directories,
starting processes, the SQLite engine and the command-line grammar. A release ships the
texts that it installs in a directory `templates` beside the executable. The commands
`outline` and `guard-hook-snippet` are known to the command line and not available in
this build.

The calls into `globset`, `regex`, `semver`, `serde_json` and `sha2` stand behind small
wrappers whose contracts say what is relied on.
