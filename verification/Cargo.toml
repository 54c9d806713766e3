[package]
name = "recur"
version = "0.1.0"
edition = "2021"
publish = false

[dependencies]
anyhow = "1"
chrono = { version = "0.4", default-features = false, features = ["clock", "std"] }
clap = { version = "4", features = ["derive"] }
clap_complete = "4"
owo-colors = "4"
serde = { version = "1", features = ["derive"] }
serde_json = "1"
