[package]
name = "secret_reader"
version = "0.1.0"
edition = "2021"
publish = false

[dependencies]
anyhow = "*"
askama = "*"
axum = "*"
chrono = "=0.4.45"
clap = { version = "*", features = ["derive"] }
hmac = "=0.13.0"
k8s-openapi = { version = "=0.27.1", features = ["latest"] }
kube = "=3.1.0"
serde = { version = "*", features = ["derive"] }
sha1 = "=0.11.0"
tokio = { version = "*", features = ["rt-multi-thread", "macros", "net"] }
tracing = "*"
tracing-subscriber = "*"

[dev-dependencies]
totp-rs = "=6.0.0"
