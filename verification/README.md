# twrit

`twrit` holds a repository to the rules it writes down in its `.writ.tmt`
files: every `@rule` names what guards it, and the rules this tool guards
itself (`layers`, `pure`, `door`, `placement`) are run against the
workspace.

- `src/` is the verified library: reading the rule entries, the four rule
  kinds, and the text `twrit check` and `twrit list` print. Each public
  function's contract states its answer exactly, over the spec functions
  beside it; `src/laws.rs` states what holds across functions.
- `app/` is the command: argument handling, walking the tree, parsing the
  writs, asking `cargo metadata`, reading sources, and the exit code. It
  hands the library plain values.
- `tests/` runs the library on concrete workspaces.
