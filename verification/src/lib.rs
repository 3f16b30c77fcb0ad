//! Dense vector fields of a search segment.
//!
//! A segment keeps the vectors of a field as 4-bit codes beside a graph of nearest
//! neighbours. The crate codes the vectors, lays out and reads the `.vec` file, walks
//! the graph for the documents nearest to a query, and keeps the books of writing and
//! querying.
//!
//! Numbers travel through the crate as the bit patterns of IEEE numbers (see
//! [`floatbits`]). Comparing them is done here; sums, products, quotients, roots and the
//! exponential function come from the caller (see [`arith`] and [`wide`]), and contracts
//! say which of them are taken of what. So do building a graph and turning options into
//! bytes and back: each is a function that the caller hands in.
//!
//! The modules whose names end in `_laws` state what holds of several functions
//! together. Laws that need arithmetic without rounding are stated for [`exact`]
//! arithmetic; laws on how far results can be off, for [`ieee`] arithmetic.

pub mod arith;
pub mod bbq;
pub mod bbq_laws;
pub mod bbq_l2_rounding_laws;
pub mod bbq_rounding_laws;
pub mod bbq_row_laws;
pub mod bytes;
pub mod calibration_laws;
pub mod codebook;
pub mod codebook_laws;
pub mod codec_laws;
pub mod direction_laws;
pub mod direction_sizes;
pub mod doubling_laws;
pub mod error;
pub mod exact;
pub mod exact_model;
pub mod file;
pub mod file_laws;
pub mod floatbits;
pub mod graph;
pub mod hits;
pub mod hnsw;
pub mod ieee;
pub mod ieee_model;
pub mod knn_query;
pub mod layout_laws;
pub mod metric;
pub mod metric_laws;
pub mod options;
pub mod reader;
pub mod reader_laws;
pub mod rotation;
pub mod rotation_laws;
pub mod rounding;
pub mod rounding_laws;
pub mod scoring;
pub mod scoring_laws;
pub mod scoring_rounding_laws;
pub mod search;
pub mod search_laws;
pub mod segment_laws;
pub mod turboquant;
pub mod visited;
pub mod wide;
pub mod writer;
