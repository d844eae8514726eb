[package]
name = "rdma_region"
version = "0.1.0"
edition = "2021"
publish = false

[dependencies]
rdma-sys = "*"
serde = { version = "1", features = ["derive"] }
