//! File transfer over several SSH connections at once.
//!
//! The library holds the rules of a transfer: what the command line asks for, which files go where,
//! how they are cut into jobs, what the agents are told and what they answer, what happens when a
//! job fails, and what the user is shown. It reads and writes nothing itself.

pub mod agent;
pub mod auth;
pub mod config;
pub mod error;
pub mod file;
pub mod job;
pub mod logger;
pub mod path;
pub mod progress;
pub mod session;
pub mod text;
pub mod transfer;
pub mod worker;
