[package]
name = "straws"
version = "0.1.0"
edition = "2021"
publish = false

[dependencies]
byteorder = "*"
clap = { version = "*", features = ["derive"] }
crossbeam-channel = "*"
crossterm = "*"
libc = "*"
md-5 = "*"
parking_lot = "*"
thiserror = "*"
tokio = { version = "*", features = ["full"] }
