[package]
name = "silero_vad_rust"
version = "0.1.0"
edition = "2021"
publish = false

[dependencies]
hound = "3.5"
serde = { version = "1", features = ["derive"] }
serde_json = "1"
symphonia = "0.5"
