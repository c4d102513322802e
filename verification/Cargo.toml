[package]
name = "kv"
version = "0.1.0"
edition = "2021"
publish = false

[dependencies]
crc32fast = "*"
crossbeam-skiplist = "*"
fslock = "*"
jammdb = "*"
memmap2 = "*"
serde = { version = "*", features = ["derive"] }
toml = "*"

[dev-dependencies]
english-numbers = "*"
