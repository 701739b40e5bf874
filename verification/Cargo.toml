[package]
name = "sshboard"
version = "0.1.0"
edition = "2021"
publish = false

[dependencies]
age = "0.11"
zeroize = "1"
sha2 = "0.10"
base64 = "0.22"
keyring = { version = "3", features = ["linux-native"] }
serde = { version = "1", features = ["derive"] }
serde_json = "1"
toml = "0.8"
directories = "6"
tokio = { version = "1", features = ["sync", "time", "rt", "macros"] }
reqwest = { version = "0.12", default-features = false }

[dev-dependencies]
tempfile = "3"
