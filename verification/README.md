# blaze_db

A vector database: a catalog of sources and the vector bases (databases)
they hold, a hierarchical navigable small-world (HNSW) graph for
approximate nearest-neighbour search with soft deletion and compaction,
and the rules of the HTTP server and command-line client built on them.

The library under `src/` is written in Verus. Its functions carry
contracts that Verus checks, except the few wrappers in `stamps.rs` and `digest.rs`
around the `uuid`, `chrono` and `sha2` crates, whose contracts are trusted:

- `catalog`, `data`: the catalog, viewed as a map from source name to
  source; name uniqueness is a type invariant.
- `hnsw/`: the graph. `graph` defines well-formedness (one neighbour list
  per layer, bidirectional edges, bounded lists without duplicates or
  self-loops, distinct identifiers); insertion, deletion, compaction and
  search preserve it. Scores are integer keys supplied by the caller, so the
  graph is independent of how vectors are represented.
- `service`, `errors`, `validate`: request checks, source and database
  creation, listing, pre-write checks, which stored index copy to load,
  and the status code of each endpoint outcome.
- `backup`: effective backup intervals, which databases are due, recording
  a finished backup, which old archives to prune.
- `page`, `ingest`: pagination, and cutting text into chunks and batches.
- `digest`: the metadata of a stored index (its SHA-256 checksum, through
  the `sha2` crate) and whether a cached index is still current.
- `laws`: properties that relate several operations.

`app/` holds the server and client programs: HTTP handling, files on disk,
the embedding service, and floating-point similarity.
