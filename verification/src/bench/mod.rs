//! The logic of the benchmarks: what they ingest, what they measure and how they read their
//! options. Threads, clocks and the engine itself stay with the caller.
pub mod buckets;
pub mod durable;
pub mod ingest;
pub mod lag;
pub mod load;
pub mod load_options;
pub mod load_run;
pub mod materializer;
pub mod measure_laws;
pub mod options;
pub mod postings;
pub mod probes;
pub mod raw_options;
pub mod rows;
pub mod sweep;
pub mod tally;
