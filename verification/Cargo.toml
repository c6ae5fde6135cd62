[package]
name = "sparse_merkle"
version = "0.1.0"
edition = "2021"
publish = false

[dependencies]
blake2 = "0.10"
cosmwasm-std = "1"
cw-storage-plus = "1"
serde = "1"
thiserror = "1"
