[package]
name = "minkowski_persist"
version = "0.1.0"
edition = "2021"
publish = false

[dependencies]
crc32fast = "1"
parking_lot = "0.12"
rkyv = "0.8"
thiserror = "2"
