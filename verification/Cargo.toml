[package]
name = "article_reader"
version = "0.1.0"
edition = "2021"
publish = false

[dependencies]
anyhow = "1"
chardetng = "0.1"
encoding_rs = "0.8"
clap = { version = "4", features = ["derive"] }
comfy-table = "7"
indicatif = "0.17"
msedge-tts = "0.2"
owo-colors = "4"
pulldown-cmark = { version = "0.13", default-features = false }
regex = "1"
scraper = "0.23"
ego-tree = "0.10"
