# smart_archive

Integrity checking for archived directory trees. Each archived directory
holds a `.checksums` file with one line per file, `{path}\t{md5}`, sorted by
path; the `prepare`, `verify` and `copy` commands write, check and carry that
record along.

- `src/` is the library, verified with Verus: the checksum file format and
  its round trip, the sorted listing, the comparison of a record with a
  directory and its reconciliation, the path filter, the checksum of a file's
  content, and the decisions of each command.
- `app/` is the `smart-archive` program: argument parsing, directory walking,
  file I/O, prompts and logging, calling the library for every decision.
- `tests/` runs the library on concrete values.
