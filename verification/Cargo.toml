[package]
name = "ucd-generate"
version = "0.1.0"
edition = "2021"
publish = false

[dependencies]
byteorder = "1"
clap = { version = "2", default-features = false }
fst = "0.3"
regex-automata = "0.1"
regex-syntax = "0.6"
ucd-trie = "0.1"
utf8-ranges = "1"
