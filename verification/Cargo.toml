[package]
name = "pintail_exec"
version = "0.1.0"
edition = "2021"
publish = false

[dependencies]
chrono = "=0.4.45"
chrono-tz = { version = "=0.10.4", features = ["case-insensitive"] }
serde_json = "=1.0.154"
md-5 = "=0.10.6"
regex = "1"
regex-automata = "0.4"
regex-syntax = "0.8"
unicode-normalization = "0.1"
unicode-casefold = "*"
