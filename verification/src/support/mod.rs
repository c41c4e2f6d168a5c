//! Containers and helpers that the engine's modules share.
pub mod big_nat;
pub mod bytes;
pub mod int_map;
pub mod num_text;
pub mod posting_map;
pub mod sort;
pub mod str_map;
pub mod str_set;
pub mod text;
