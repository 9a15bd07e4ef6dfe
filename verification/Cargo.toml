[package]
name = "relaxation_analysis"
version = "0.1.0"
edition = "2021"
publish = false

[dependencies]
rand = "0.8"
clap = { version = "4", features = ["derive"] }
serde_json = "1"
chrono = "0.4"
rayon = "1"
