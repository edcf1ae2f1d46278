[package]
name = "geminispace_map"
version = "0.1.0"
edition = "2021"
publish = false

[dependencies]
url = "2"
petgraph = { version = "0.6", features = ["serde-1"] }
serde = { version = "1", features = ["derive"] }
serde_json = "1"
sha2 = "0.10"
hex = "0.4"
gmi = "*"
ctrlc = "3"
clap = { version = "4", features = ["derive"] }
