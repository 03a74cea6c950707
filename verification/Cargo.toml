[package]
name = "tracker"
version = "0.1.0"
edition = "2021"
publish = false

[dependencies]
anyhow = "1"
base64 = "0.22"
cargo_toml = "*"
chrono = { version = "0.4", default-features = false, features = ["alloc"] }
clap = { version = "4", default-features = false, features = ["derive", "std"] }
log = "0.4"
regex = "1"
reqwest = { version = "0.12", default-features = false, features = ["json"] }
serde = { version = "1", features = ["derive"] }
serde_json = "1"
serde_yaml = "0.9"
tokio = { version = "1", features = ["macros", "rt-multi-thread"] }
toml = "*"
