[package]
name = "dns_topology"
version = "0.1.0"
edition = "2021"
publish = false

[dependencies]
anyhow = "=1.0.104"
axum = { version = "=0.8.9", features = ["ws"] }
crossterm = "=0.29.0"
futures = "=0.3.34"
k8s-openapi = { version = "=0.27.1", features = ["latest"] }
kube = "=3.1.0"
log = "=0.4.34"
rand = "=0.10.3"
ratatui = "=0.30.2"
tokio = { version = "=1.53.2", features = ["full"] }

[dev-dependencies]
serde_json = "=1.0.151"
