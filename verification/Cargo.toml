[package]
name = "nine_q_lib"
version = "0.1.0"
edition = "2021"
publish = false

[dependencies]
rayon = "*"
clap = { version = "*", features = ["derive"] }
env_logger = "*"
log = "*"
pbr = "*"
