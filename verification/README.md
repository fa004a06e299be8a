# vex

A tiny git-like object store with its logic verified by Verus.

- `src/` is the verified library: object framing and ids (`object`), hashing, hex and
  zlib coding through `sha1`, `hex` and `flate2` (`codec`), trees (`tree`), writing the
  index as trees (`writetree`), commits (`commit`), the index file and its updates
  (`index`), checking out a tree (`checkout`), configuration (`config`), reference resolution (`refs`), the repository
  layout (`repo`), work-tree decisions (`worktree`), status (`status`) and the printed
  reports (`report`), with path, text and number helpers that model `std`.
- `app/` is the `vex` command line: argument parsing with `clap`, file-system access,
  directory walks with `walkdir`, and the loops that read files between library steps.
- `tests/` runs the library on concrete values.
