[package]
name = "extsort"
version = "0.1.0"
edition = "2021"
publish = false

[dependencies]
fst = "*"
memmap = "*"
tempfile = "*"
tracing = "*"
tracing-subscriber = "*"
