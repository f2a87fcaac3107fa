[package]
name = "l-rs"
version = "0.1.0"
edition = "2021"
publish = false

[dependencies]
anyhow = "1"
clap = { version = "4", features = ["derive"] }
csv = "1"
libc = "0.2"
rustyline = "14"
serde_json = "1"
