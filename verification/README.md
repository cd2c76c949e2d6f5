# svarog-p4k

A verified reader and writer for P4K archives, the container format of Star
Citizen. Both on-disk formats are supported: v1, a customized ZIP64 archive,
and v2, a flat central directory behind sector-aligned payloads.

- `src/` is the library. It works on bytes in memory: `archive` opens and reads
  archives, `writer` makes them and converts v1 to v2, `zip` holds the records,
  `crypto`, `compress`, `decompress` and `digest` the payload transformations.
  Every function states in its contract what it returns for every input, and
  Verus proves it. Proof functions whose names start with `law_` state what
  holds of several functions together, such as that a written archive opens
  with what was put into it.
- `tests/` runs the library on concrete archives.
- `app/` is ordinary Rust around the library: memory-mapped files, temporary
  files, directories and threads.

What other crates compute (AES and CBC, DEFLATE, zlib, Zstandard, SHA-256 and
byte searches) is called through small wrappers whose contracts are trusted.
