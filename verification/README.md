# coseva

A verified library for delimiter-separated documents: reading and writing
records, locating them, and keeping indexes that lead straight to a record.

- `src/` is the library. Every function in it is verified with Verus; its
  contracts speak of documents, records and fields as sequences.
  - `config`, `options`, `format`: dialects, policies and built-in formats.
  - `engine`: the record grammar, the parsers that follow it, and the proofs
    that they all read alike.
  - `slice_parser`: reading a document record by record.
  - `emit`, `io_emitter`, `generate`: writing records and whole documents, with
    the proofs that what is written is read back; `io_laws`: which ways of
    emitting come to the same.
  - `index`: building, storing and checking record indexes, from a source held in
    memory or one that comes piece by piece, and generating a document with its
    index, with the proofs of what is read from an indexed record on.
  - `from_bytes`, `field_value`, `filter`: typed fields and predicates on them.
- `tests/` runs the library on concrete documents.
- `app/` is ordinary Rust around it: files, standard readers and writers,
  threads, floating point.
