[package]
name = "ledgers"
version = "0.1.0"
edition = "2021"
publish = false

[dependencies]
byteorder = "*"
uuid = { version = "*", features = ["v4"] }
tokio = { version = "*", features = ["full"] }
tonic = "*"
clap = "*"
etcd-rs = "*"
