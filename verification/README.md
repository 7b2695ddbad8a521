# tracer

Repository facts for coding agents, from git and the working tree: per-file
history, blame regions, working-tree and staging state, an import graph of
the source files, directory listings, leading comments, and the session log
of which documents an agent has already been shown.

The library under `src/` holds the logic (parsers of git's output, the graph
builder and its queries, listing order and limits, session bookkeeping, the
text rules), each function with a contract that Verus proves. The laws that
tie several functions together are public proof functions beside them.

- `src/` — the verified library; the few calls into `sha2`, `hex`, `regex`
  and std that Verus cannot read stand behind small trusted wrappers, each
  with a doc comment saying what it assumes.
- `tests/` — ordinary Rust tests against the compiled library.
- `app/` — the `trace` command line: argument handling, subprocesses, file
  reads, JSON output, all handing plain values to the library.
