//! Keys and passwords.

pub mod key;
pub mod password;
