[package]
name = "system_stats"
version = "0.1.0"
edition = "2021"
publish = false

[dependencies]
log = "0.4"
serde = { version = "1", features = ["derive"] }
sysinfo = { version = "=0.32.1", default-features = false, features = ["system"] }
