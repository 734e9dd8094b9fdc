//! Spatial co-occurrence counts for a labelled point cloud on an integer grid.
pub mod error;
pub mod model;
pub mod labels;
pub mod radii;
pub mod table;
pub mod accumulate;
pub mod reduce;
pub mod assemble;
pub mod cooccur;
pub mod laws;
pub mod totals;

pub use cooccur::{co_occur_count, co_occur_count_chunked, CHUNK_SIZE};
pub use error::CoOccurError;
