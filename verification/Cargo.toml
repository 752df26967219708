[package]
name = "kvs"
version = "0.1.0"
edition = "2021"
publish = false

[dependencies]
byteorder = "1"
clap = { version = "3", features = ["cargo"] }
log = "0.4"
serde = "1"
serde_json = "1"
thiserror = "1"
