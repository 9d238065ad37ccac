[package]
name = "kubesavings-agent"
version = "1.2.0"
edition = "2021"
publish = false

[dependencies]
chrono = "0.4"
http = "1"
k8s-openapi = { version = "0.28", features = ["v1_32"] }
kube = "4.2"
prost = "0.14"
reqwest = { version = "0.12", default-features = false, features = ["rustls-tls"] }
serde_json = "1"
thiserror = "2"
tokio = { version = "1", features = ["macros", "rt-multi-thread", "time"] }
tokio-retry = "0.3"
tracing = "0.1"
tracing-subscriber = { version = "0.3", features = ["json", "env-filter"] }
url = "2"
