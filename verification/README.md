# fex

A fast file-system indexer: workers walk a directory tree, record every
file and directory (inode, parent inode, name, kind) in a SQLite index, and
a fuzzy search over the index ranks names and rebuilds their full paths.

- `src/` is the library, verified with Verus: decoding raw directory
  records (`platform`), the traversal decisions and record batching of a
  scan (`scanner`, `symlink`, `metrics`), ranking and path rebuilding for
  search (`search`), the ordering of directory listings (`listing`), the
  planning of index changes from file-system events (`watcher`), and small
  encoders (`encoding`, `icons`).
- `app/` is the program around it: the command-line scanner, the SQLite
  index, the concurrent workers, the file-system watcher, the HTTP search
  API and the desktop commands. It performs the I/O and hands the library
  plain values.
- `tests/` exercises the library on concrete inputs.
