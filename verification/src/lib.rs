//! Loader for the Matrix Market coordinate text format into a compressed
//! sparse row (CSR) structure.
//!
//! The crate validates the banner line, reads the dimension line, splits the
//! remaining body into newline-aligned windows so that independent workers can
//! tokenize them, merges and sorts the extracted (row, column, value) triples
//! by (row, column), and builds the row-pointer array of the CSR layout.
//! File access, task spawning and numeric use of the values are left to the
//! caller; the value tokens are validated and carried through as bytes.

pub mod bytes;
pub mod chunk;
pub mod csr;
pub mod entry;
pub mod float;
pub mod loader;
pub mod numbers;
pub mod sort;

pub use bytes::contains_sequence;
pub use csr::SparseMatrixCSR;
pub use entry::RawEntry;
pub use loader::MmError;
pub use loader::MatrixShape;
pub use loader::load_matrix_market;
pub use loader::validate_banner;
pub use loader::parse_dimensions;
pub use chunk::process_chunk;
