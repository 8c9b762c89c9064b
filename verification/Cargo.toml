[package]
name = "atlas"
version = "0.1.0"
edition = "2021"
publish = false

[dependencies]
rand = "0.8"
weighted_rand = "0.4"
png = "0.17"
toml = "0.8"
serde = { version = "1", features = ["derive"] }
thiserror = "1"
