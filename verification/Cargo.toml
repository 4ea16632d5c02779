[package]
name = "mynotes"
version = "0.1.0"
edition = "2021"
publish = false

[dependencies]
base64 = "0.22"
lettre = { version = "0.11", default-features = false, features = ["builder", "smtp-transport", "tokio1", "tokio1-rustls-tls"] }
pulldown-cmark = "0.13"
rocket = { version = "0.5", features = ["json"] }
rocket_async_compression = "*"
serde = { version = "1", features = ["derive"] }
time = { version = "0.3", features = ["serde-well-known", "formatting", "parsing"] }
toml = "*"

[dev-dependencies]
regex = "1"
