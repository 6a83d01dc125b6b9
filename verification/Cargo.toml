[package]
name = "posting_codecs"
version = "0.1.0"
edition = "2021"
publish = false

[dependencies]
itertools = "0.14"
criterion = { version = "0.5", default-features = false }
