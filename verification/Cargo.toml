[package]
name = "path_utilities"
version = "0.1.0"
edition = "2021"
publish = false

[dependencies]
dirs = "*"
serde_json = "*"
thiserror = "*"
log = "*"
lazy_static = "*"
mut_static = "*"
parking_lot = "*"
