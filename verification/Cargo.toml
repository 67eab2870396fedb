[package]
name = "depthbook"
version = "0.1.0"
edition = "2021"
publish = false

[dependencies]
anyhow = "*"
futures-util = "*"
reqwest = { version = "*", default-features = false, features = ["json", "rustls-tls"] }
serde = { version = "*", features = ["derive"] }
serde_json = "*"
tokio = { version = "*", features = ["rt-multi-thread", "macros", "signal", "time"] }
tokio-tungstenite = { version = "*", features = ["rustls-tls-webpki-roots"] }
