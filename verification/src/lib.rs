//! Read-only access to chunked multi-dimensional array datasets.
//!
//! A dataset is described by an immutable chunk table: its shape, chunk
//! shape, element type, stored byte order, a shuffle flag, and one chunk
//! descriptor per block of the chunk grid.  A hyperslab request is turned
//! into an ordered sequence of chunk byte ranges by the slicer, the stored
//! bytes of each chunk are run through the reversible filter pipeline, and
//! the result is assembled into a tightly packed destination buffer, either
//! through a bounded recency cache or chunk by chunk without one.

pub mod byteorder;
pub mod errors;
pub mod extent;
pub mod idx;
pub mod laws;
pub mod par;
pub mod reader;
pub mod shuffle;
pub mod slicer;
