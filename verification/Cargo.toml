[package]
name = "lbr"
version = "0.1.0"
edition = "2021"
publish = false

[dependencies]
furigana = "*"
wana_kana = "*"
rand = "0.9"
serde = { version = "1", features = ["derive"] }
serde_json = "1"
thiserror = "*"
eyre = "*"
