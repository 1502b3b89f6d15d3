[package]
name = "pex"
version = "0.1.0"
edition = "2021"
publish = false

[dependencies]
regex = "1"
regex-automata = "0.2"
ucd-trie = "0.1"
