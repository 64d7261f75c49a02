[package]
name = "meeting_assistant"
version = "0.1.0"
edition = "2021"
publish = false

[dependencies]
uuid = { version = "1", features = ["v5", "v7"] }
serde = { version = "1", features = ["derive"] }
serde_json = "1"
hex = "0.4"
sha2 = "0.10"
ed25519-dalek = "2"
rand = "0.8"
toml = "0.8"
flacenc = "0.4"
claxon = "0.4"
