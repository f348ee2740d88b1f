# dvcs_wye

A small distributed version control system whose core is verified with Verus.

A repository lives in a `.dvcs` directory below its working directory: the
content store `files` (file contents under their SHA-256 ids), the revisions
`revs` (JSON records under their ids) and the record `repos` (branches, the
checked-out branch and the stage).

## Layout

- `src/` — the verified library. The file system is modelled as a map from
  keys (lists of path components) to nodes (`dsr`); every command is an
  executable function whose contract is stated over that model and over the
  repository's view (`vc`, `cmd_function`, `cmd_interface`). `outside.rs`
  holds the few trusted wrappers around `sha2`, `diffy`, `chrono`, `glob`
  and `users`. `laws.rs` states and proves properties that span operations, such
  as a committed file reading back through `cat`, or a checkout rebuilding the
  working directory from the store.
- `tests/` — tests of the library on an in-memory disk.
- `app/` — the command-line program: it loads the real directory into the
  model, runs a command, and writes the changed nodes back.
