[package]
name = "membridge"
version = "0.1.0-alpha.4"
edition = "2021"
publish = false

[dependencies]
aho-corasick = "1"
blake3 = "1"
clap = { version = "4", features = ["derive"] }
hex = "0.4"
memmap2 = "0.9"
minidump = "*"
serde = { version = "1", features = ["derive"] }
serde_json = "1"

[dev-dependencies]
minidump-synth = "*"
test-assembler = "*"
