[package]
name = "duration_unit_lookup"
version = "0.1.0"
edition = "2021"
publish = false

[dependencies]
aho-corasick = "1"
anyhow = "1"
hashify = "*"
rand = "0.8"
regex-automata = "0.4"
