[package]
name = "railchain"
version = "0.1.0"
edition = "2021"
publish = false

[dependencies]
ring-compat = { version = "=0.8.0", default-features = false, features = ["digest"] }
digest = "=0.10.7"
ring = "=0.17.14"
prost = "=0.14.4"
serde = { version = "=1.0.229", features = ["derive"] }
quick-xml = { version = "=0.42.0", features = ["serialize"] }
serde_json = "1"
rmp-serde = "1"
ron = "*"
anyhow = "=1.0.104"
