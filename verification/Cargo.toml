[package]
name = "missing_files"
version = "0.1.0"
edition = "2021"
publish = false

[dependencies]
adler32 = "1"
clap = { version = "4", features = ["derive"] }
crc32fast = "1"
indicatif = { version = "*", features = ["rayon"] }
md5 = "*"
owo-colors = "*"
rayon = "1"
serde = { version = "1", features = ["derive"] }
sha256 = { version = "1", default-features = false }
