[package]
name = "minidex"
version = "0.1.0"
edition = "2021"
publish = false

[dependencies]
fst = "0.4"
regex-automata = "0.4"
regex-syntax = "0.8"
lockfile = "*"
memmap2 = "*"
thiserror = "*"
