# DNA-DB engine

A database engine that keeps records as strands: payload bytes spelled in base-four codons, with
a complement for error detection, introns for indexed fields and a telomere for the record's
lifetime. Every function of the library states its behaviour in a contract. Verus proves these
contracts, but for those of the small functions that call into other crates and the standard
library: they are taken on trust.

## Layout

- `src/` is the verified library.
  - `model`, `encoding`, `complement`, `codec`, `wire_format`, `digest`: strands and their bytes.
  - `processor`, `storage`, `integrity`, `recovery`, `replication`, `group_commit`: from log
    entries to pools, and back after a crash.
  - `query/`: from the query builder over compilation, planning, scans and indexes to rows.
  - `mvcc`, `transaction`: versions, snapshots and commits.
  - `auth`, `overlay`, `privacy`, `audit`, `tls`: who may see what, and the record of who did.
  - `lifecycle`, `histone`: expiry, storage tiers and compaction.
  - `http`, `runtime`, `bench/`: the decisions of the server and of the benchmarks.
  - `support/`: maps, sets, sorting, text and numbers with contracts of their own.
- `tests/` runs the library on concrete values.
- `app/` is plain Rust around it: memory-mapped files, threads, HTTP and benchmark drivers. It is
  generic over the write-ahead log and the durable store (`app/ports.rs`).

The doc comments of the functions that are taken on trust say what they claim of the calls that
they make. Laws that span several functions are public proof functions whose names begin with `law_`.
