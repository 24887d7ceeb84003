[package]
name = "fts5_tokenizer"
version = "0.1.0"
edition = "2021"
publish = false

[dependencies]
jieba-rs = "*"
unicode-normalization = "*"
waken_snowball = "*"
rusqlite = { version = "*", features = ["bundled"] }
log = "*"
