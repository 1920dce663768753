[package]
name = "ardupilot_binlog"
version = "0.2.0"
edition = "2021"
publish = false

[dependencies]
thiserror = "2"
serde = { version = "1", features = ["derive"] }
