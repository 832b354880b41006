[package]
name = "opensqlany"
version = "0.1.1"
edition = "2021"
publish = false

[dependencies]
crc32fast = "1"
thiserror = "2"
anyhow = "1"
clap = { version = "4", features = ["derive"] }
