[package]
name = "qcow2"
version = "0.4.5"
edition = "2021"
publish = false

[dependencies]
am-fs-core = "0.2"
flate2 = "1"
ruzstd = "0.8"

[dev-dependencies]
zstd = "0.13"
