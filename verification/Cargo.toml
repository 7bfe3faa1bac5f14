[package]
name = "indexer"
version = "0.1.0"
edition = "2021"
publish = false

[dependencies]
rust-stemmers = "=1.2.0"
serde = { version = "=1.0.229", features = ["derive"] }
stop-words = { version = "=0.8.1", default-features = false, features = ["nltk"] }
unicode-segmentation = "=1.13.3"
whatlang = "=0.16.4"
