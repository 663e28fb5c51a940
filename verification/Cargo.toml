[package]
name = "replacer"
version = "0.1.0"
edition = "2021"
publish = false

[dependencies]
aho-corasick = "*"
rayon = "*"
clap = { version = "*", features = ["derive"] }
encoding_rs = "*"
indicatif = "*"
