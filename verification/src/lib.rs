//! IVF index over RaBitQ-quantized vectors: cluster layout, search, and persistence.
pub mod args;
pub mod args_laws;
pub mod bytes;
pub mod checksum;
pub mod cluster;
pub mod code_laws;
pub mod damage;
pub mod decimal;
pub mod error;
pub mod fastscan;
pub mod fetch;
pub mod fetch_laws;
pub mod figure_laws;
pub mod filter;
pub mod float_bits;
pub mod float_laws;
pub mod fvecs;
pub mod fvecs_laws;
pub mod growth;
pub mod index;
pub mod insert;
pub mod insert_laws;
pub mod layout_laws;
pub mod lut;
pub mod manifest;
pub mod memory;
pub mod naive_laws;
pub mod persist;
pub mod probe_laws;
pub mod quantized;
pub mod ranking;
pub mod report;
pub mod result_laws;
pub mod savable;
pub mod search;
pub mod search_coverage;
pub mod search_laws;
pub mod search_naive;
pub mod segment;
pub mod shape_laws;
pub mod train;
pub mod types;
pub mod v4;
pub mod v4_flush;
pub mod v4_flush_laws;
pub mod v4_load;
