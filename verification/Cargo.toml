[package]
name = "snapcrop"
version = "0.1.0"
edition = "2021"
publish = false

[dependencies]
anyhow = "1"
blake3 = "1"
clap = { version = "4", features = ["derive"] }
fast_image_resize = "3"
image = "0.24"
indicatif = { version = "0.17", features = ["rayon"] }
log = "0.4"
rayon = "1"
simplelog = "0.12"
