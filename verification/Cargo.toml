[package]
name = "eazip"
version = "0.2.4"
edition = "2021"
publish = false

[dependencies]
crc32fast = "1"
flate2 = "1"
memchr = "2"
rayon = "1"
sync_file = "*"
zstd = "0.13"
