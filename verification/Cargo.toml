[package]
name = "mfekufo"
version = "0.1.0"
edition = "2021"
publish = false

[dependencies]
unic-ucd-block = "*"
serde_json = "*"
fuzzy-matcher = "*"
clap = "*"
colored = "*"
glifparser = "*"
