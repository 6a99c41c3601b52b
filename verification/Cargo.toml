[package]
name = "cellular_automata"
version = "0.1.0"
edition = "2021"
publish = false

[dependencies]
macroquad = "=0.4.16"
serde = { version = "=1.0.229", features = ["derive"] }
serde_json = "=1.0.154"
