[package]
name = "salto_sync"
version = "0.1.0"
edition = "2021"
publish = false

[dependencies]
base64 = "*"
chrono = "*"
futures = "*"
hex = "*"
rand = "*"
reqwest = { version = "*", default-features = false, features = ["rustls-tls", "cookies", "json"] }
serde = { version = "*", features = ["derive"] }
serde_json = "*"
serde_yaml = "*"
sha2 = "*"
sqlx = { version = "*", default-features = false, features = ["runtime-tokio-rustls", "postgres"] }
tokio = { version = "*", features = ["rt-multi-thread", "macros", "signal", "time", "sync"] }
