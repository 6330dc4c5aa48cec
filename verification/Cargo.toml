[package]
name = "json_parser"
version = "0.1.0"
edition = "2021"
publish = false

[dependencies]
aho-corasick = "0.7"
arrayvec = "0.5"
