[package]
name = "lychrel_finder"
version = "0.1.0"
edition = "2021"
publish = false

[dependencies]
num-bigint = "0.4"
rand = "0.8"
chrono = "0.4"
serde = { version = "1", features = ["derive"] }
serde_json = "1"
rayon = "1"
clap = { version = "4", features = ["derive"] }
