[package]
name = "phase_vocoder"
version = "0.1.0"
edition = "2021"
publish = false

[dependencies]
clap = { version = "4", features = ["derive"] }
num-traits = "0.2"
rand = "0.8"
thiserror = "1"
