[package]
name = "syc"
version = "0.1.12"
edition = "2021"
publish = false

[dependencies]
anyhow = "1"
blake3 = "1"
byteorder = "1.5"
crc32fast = "1.5"
libc = "0.2"
ppmd-rust = "1.4"
twox-hash = "2"
walkdir = "2.5"
xattr = "1"
xz2 = "0.1"
zstd = { version = "0.13", features = ["zstdmt", "zdict_builder"] }
