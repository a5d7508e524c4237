[package]
name = "hnsw_index"
version = "0.1.0"
edition = "2021"
publish = false

[dependencies]
dashmap = "6"
priority-queue = "2"
rand = "0.8"
