//! Queries: from the builder's syntax tree to matching strands.
pub mod answer_laws;
pub mod asking_laws;
pub mod ast;
pub mod bloom;
pub mod codebook;
pub mod compile;
pub mod fast_match;
pub mod fields;
pub mod fetch;
pub mod fetch_laws;
pub mod find_laws;
pub mod guide;
pub mod include_laws;
pub mod index;
pub mod index_lifecycle;
pub mod like_util;
pub mod literal;
pub mod matching;
pub mod plan_cache;
pub mod plan_laws;
pub mod planner;
pub mod scan;
pub mod segment;
pub mod signatures;
pub mod vector;
pub mod workload_stats;
pub mod write_read_laws;

pub use ast::{OrderByClause, QueryAst, QueryLiteral, SortDirection, WhereClause, WhereOp};
pub use compile::{compile_query, CompileError};
pub use fast_match::{
    clause_introns_fast_match, guide_introns_fast_match, intron_hash_matches_field,
};
pub use guide::{Clause, GuidePattern, RangeOp};
pub use index::{
    build_exact_hash_index, exact_lookup_signatures, GlobalHashIndex, GlobalHashIndexError,
    GlobalRangeIndex,
};
pub use segment::{
    should_skip_block, should_skip_block_bloom_only, should_skip_segment,
    should_skip_segment_bloom_only, BloomFilter, FieldStats, SegmentBlockMeta, SegmentMeta,
};
pub use scan::{
    scan_strands, scan_strands_parallel, scan_strands_sequential, ScanConfig,
    PARALLEL_STRAND_THRESHOLD,
};
pub use vector::{filter_rows_vectorized, DEFAULT_VECTOR_BATCH_SIZE};
pub use planner::{choose_path, CollectionStats, QueryPath};
pub use fetch::{
    fetch, fetch_one, fetch_stream, fetch_with_includes, FetchResult, FetchRow, FetchWithIncludes,
    QuerySession,
};
pub use matching::{project_rows, ProjectedRow};
pub use signatures::{resolve_include_path, strand_by_signature, SignatureIndex};
pub use index_lifecycle::{GlobalIndexCatalog, GlobalIndexCatalogError};
