[package]
name = "hnsw"
version = "0.1.0"
edition = "2021"
publish = false

[dependencies]
arrayvec = "0.7"
memmap = "0.7"
ordered-float = "4"
rayon = "1"
