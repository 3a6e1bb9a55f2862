//! The two directions of a transfer: how the bytes of a job go over, and how they are checked.

pub mod download;
pub mod io;
pub mod upload;
