[package]
name = "hangar"
version = "0.1.0"
edition = "2021"
publish = false

[dependencies]
anyhow = "1"
argon2 = "0.5"
chacha20poly1305 = "0.10"
clap = { version = "4", features = ["derive"] }
getrandom = "0.2"
rpassword = "7"
serde = { version = "1", features = ["derive"] }
thiserror = "1"
walkdir = "2"
xxhash-rust = { version = "0.8", features = ["xxh3"] }
zeroize = "1"
zstd = { version = "0.13", features = ["zstdmt"] }
