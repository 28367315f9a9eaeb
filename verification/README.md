# tar_entry

The entries of a tar archive: what they are called, what they hold, and how they are unpacked.

- `src/` is the library. It decides; it performs no I/O. Unpacking is a state machine: it asks for
  one action on the file system after the other and is told how each went. Every function has a
  contract, which Verus proves except for the few trusted items named below. The laws that hold over
  several functions are proof functions whose names begin with `law_`.
- `app/` runs the library on tokio: it reads from any `AsyncRead` and performs the actions. Paths
  are Unix paths, so it builds on Unix only.
- `tests/` runs the library against a file system in memory.

What is taken on trust, and not proved, is in `src/memo.rs` (the set of directories, an
`FxHashSet`) and in `src/text.rs` (UTF-8 from the standard library).
