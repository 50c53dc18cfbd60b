[package]
name = "zvcr"
version = "0.1.0"
edition = "2021"
publish = false

[dependencies]
zstd = "*"
thiserror = "*"
clap = { version = "*", features = ["derive"] }
