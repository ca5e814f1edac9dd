[package]
name = "snapshot_store"
version = "0.1.0"
edition = "2021"
publish = false

[dependencies]
anyhow = "1"
bincode = "1.3"
bookfile = "*"
clap = "2.33"
log = "0.4"
once_cell = "1"
parking_lot = "0.12"
tracing = "0.1"
