//! What is done to a finished file.

pub mod finalize;

pub use finalize::finalize_file;
