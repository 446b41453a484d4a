[package]
name = "lexime"
version = "0.1.0"
edition = "2021"
publish = false

[dependencies]
anyhow = "1"
bincode = "1.3"
candle-core = "*"
candle-nn = "*"
clap = { version = "4", features = ["derive"] }
lexime-trie = "*"
memmap2 = "0.9"
serde = { version = "1", features = ["derive"] }
serde_json = "1"
thiserror = "2"
tracing = "0.1"
ureq = "*"
zip = { version = "*", default-features = false, features = ["deflate"] }
