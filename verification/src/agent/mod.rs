//! The agents on the remote host: what they are told, what they answer, and who is free.

pub mod exchange;
pub mod pool;
pub mod protocol;
pub mod python;
pub mod wire;

pub use pool::{Agent, AgentPool, AgentState};
pub use protocol::{FindEntry, OpCode, Request, Response};
