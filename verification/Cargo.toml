[package]
name = "cat_trim"
version = "0.1.0"
edition = "2021"
publish = false

[dependencies]
anyhow = "1"
clap = { version = "4", features = ["string"] }
rayon = "1"
sha1 = "*"
sha2 = "*"
walkdir = "2"
