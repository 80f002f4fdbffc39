# vmod_fileserver

A Varnish backend that serves files from a directory, with the logic that
decides what to serve written in Verus and proved against its contracts.

- `src/` is the verified library: URL-to-path resolution that cannot climb
  above the root, the `mime.types` table (last listing wins), the method
  check, 404/403 answers, entity tags and `if-none-match` /
  `if-modified-since` revalidation, and the response headers.
- `app/` is the VMOD glue: the `fileserver.root()` object and its
  `backend()`, reading the mime database, opening files (one directory at a
  time with `openat`, never following a symlink unless asked to) and
  streaming bodies. It calls the library for every decision.
- `tests/` runs the library on concrete inputs.
