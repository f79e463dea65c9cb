# path_utilities

Resolution of Unix paths against a current directory and a home directory,
and a small store of named strings kept in a JSON file from one session to
the next, written in Verus with their behaviour stated and proved.

- `src/path_buf.rs`: a path held as its bytes; its components as path
  iteration gives them; `join`, `parent`, `starts_with`, `strip_prefix`,
  component-wise equality.
- `src/path_laws.rs`: how components behave under those operations.
- `src/resolve.rs`: the kind of a path, its absolute form and its form
  relative to the current directory (climbing with `../` where needed).
- `src/path_ext.rs`: the other flavour of absolute and relative forms.
- `src/dir_entries.rs`: what a directory walk does with each read.
- `src/recollections.rs`: the store, loaded from and written to its file.
- `src/laws.rs`: properties that span several functions.
- `src/home.rs`, `src/json.rs`, `src/text.rs`: the calls into `dirs`,
  `serde_json` and `String::from_utf8_lossy`, with what is assumed of them.
- `app/`: the same operations on `std::path` paths, with the process's
  current directory, the file system, and a process-wide store.
