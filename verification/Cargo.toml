[package]
name = "unicode_tokenizer"
version = "0.1.0"
edition = "2021"
publish = false

[dependencies]
unicode-segmentation = "*"
tantivy = "*"
serde = { version = "*", features = ["derive"] }
serde_json = "*"
thiserror = "*"
