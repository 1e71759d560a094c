[package]
name = "check_av1_encode"
version = "0.9.0"
edition = "2021"
publish = false

[dependencies]
serde_json = "1"
clap = { version = "4", features = ["derive"] }
rayon = "1"
