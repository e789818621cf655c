[package]
name = "g2p"
version = "0.5.0"
edition = "2021"
publish = false

[dependencies]
unicode-normalization = "0.1"
serde = { version = "1", features = ["derive"] }
serde_json = "1"
thiserror = "2"
libc = "0.2"
dirs = "*"
zstd = "0.13"
jpreprocess = { version = "*", features = ["naist-jdic"] }
