[package]
name = "trie_tools"
version = "0.1.0"
edition = "2021"
publish = false

[dependencies]
casper-hashing = "=3.0.0"
clap = "=3.2.25"
