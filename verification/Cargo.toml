[package]
name = "attribution"
version = "0.1.0"
edition = "2021"
publish = false

[dependencies]
quick-xml = "0.22"
rand = "0.8"
regex = "1"
ron = "0.8"
serde = { version = "1", features = ["derive"] }
zip = { version = "0.6", default-features = false, features = ["deflate"] }
