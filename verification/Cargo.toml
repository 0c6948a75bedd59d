[package]
name = "qpick"
version = "0.1.0"
edition = "2021"
publish = false

[dependencies]
fnv = "1"
fst = "0.4"
regex = "1"
docopt = "1"
serde = { version = "1", features = ["derive"] }
