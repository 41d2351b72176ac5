[package]
name = "k8s_openapi"
version = "0.1.0"
edition = "2021"
publish = false

[dependencies]
bytes = "*"
http = "*"
serde = { version = "*", features = ["derive"] }
serde_json = "*"

[dev-dependencies]
base64 = "*"
