[package]
name = "xyi"
version = "0.1.0"
edition = "2021"
publish = false

[dependencies]
axum = { version = "0.6", features = ["ws"] }
base64 = "=0.21.7"
chrono = "0.4"
clap = "4"
ctrlc = "3"
futures-util = "0.3"
indicatif = "0.17"
rayon = "1"
reqwest = { version = "0.11", default-features = false, features = ["stream", "rustls-tls"] }
seahash = "=4.1.0"
serde = { version = "1", features = ["derive"] }
serde_json = "1"
takecell = "=0.1.1"
teloxide = { version = "0.12", default-features = false, features = ["rustls"] }
tokio = { version = "1", features = ["full"] }
tokio-util = { version = "0.7", features = ["io"] }
tower = { version = "0.4", features = ["util"] }
tower-http = { version = "0.4", features = ["fs"] }
tracing-subscriber = "0.3"
tungstenite = "0.20"
zip = { version = "0.6", default-features = false, features = ["deflate"] }
