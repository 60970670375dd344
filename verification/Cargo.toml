[package]
name = "wasabio"
version = "0.1.0"
edition = "2021"
publish = false

[dependencies]
crossbeam-queue = "*"
id-pool = "*"
serde_json = "*"
once_cell = "*"
