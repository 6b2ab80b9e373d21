# bm_complete

A shell completion engine with its logic verified by Verus.

- `src/` — the verified library: classification of what a command line asks for
  (`completions`), path completion (`completions/path`), the in-memory store and
  its upsert/query laws (`store`), the stable sort by completion text (`order`),
  the fish completion file reader (`source`), configuration (`config`), the
  daemon's line protocol (`daemon`) and character-level text helpers (`text`).
- `app/` — the `bm-complete` command around it: the SQLite store, the real
  filesystem, fish files on disk, configuration loading, the cache and the Unix
  socket daemon.
- `tests/` — tests of the library.
