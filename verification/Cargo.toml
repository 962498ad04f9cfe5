[package]
name = "golly_preds"
version = "0.1.0"
edition = "2021"
publish = false

[dependencies]
rand = "0.9"
rayon = "1"
clap = { version = "4", features = ["derive"] }
bitflags = "2"
