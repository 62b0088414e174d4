[package]
name = "image_dups"
version = "0.1.0"
edition = "2021"
publish = false

[dependencies]
clap = { version = "*", features = ["derive"] }
glob = "*"
image = "*"
image_hasher = "*"
itertools = "*"
rayon = "*"
