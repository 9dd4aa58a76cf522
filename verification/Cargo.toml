[package]
name = "indexify"
version = "0.4.0"
edition = "2021"
publish = false

[dependencies]
anyhow = "1"
encoding_rs = "0.8"
ignore = "0.4"
memchr = "2"
notify = "*"
rayon = "1"
regex = "1"
serde_json = "1"
tantivy = "*"
