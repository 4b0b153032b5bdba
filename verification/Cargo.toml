[package]
name = "zarr_checksum_gallery"
version = "0.1.0"
edition = "2021"
publish = false

[dependencies]
fs-err = { version = "*", features = ["tokio"] }
md-5 = "*"
hex = "*"
log = "*"
fern = "*"
clap = { version = "*", features = ["derive"] }
tokio = { version = "*", features = ["rt", "rt-multi-thread", "sync", "io-util", "fs", "macros"] }
bytes = "*"
crossbeam-utils = "*"
thiserror = "*"

[dev-dependencies]
tempfile = "*"
