//! Splits a sequence into fixed-size chunks, maps each chunk with a fallible
//! transform, and joins the per-chunk outcomes back in input order, collecting
//! every chunk fault instead of aborting.
pub mod chunking;
pub mod laws;
pub mod mapper;
pub mod transforms;
