[package]
name = "embd"
version = "0.1.0"
edition = "2021"
publish = false

[dependencies]
sha2 = "0.10"
base16ct = { version = "0.2", features = ["alloc"] }
globset = "0.4"
url = "2"
owo-colors = "4"
anyhow = "1"
clap = { version = "4", features = ["derive"] }
anstream = "0.6"
serde = { version = "1", features = ["derive"] }
toml = "0.8"
tempfile = "3"

[dev-dependencies]
tempfile = "3"
