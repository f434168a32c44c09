[package]
name = "utility_css"
version = "0.1.0"
edition = "2021"
publish = false

[dependencies]
flatbuffers = "*"
lightningcss = { version = "1.0.0-alpha.63", default-features = false }
lru = "*"
rayon = "*"
walkdir = "*"
