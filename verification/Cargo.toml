[package]
name = "pipe_stream"
version = "0.1.0"
edition = "2021"
publish = false

[dependencies]
anyhow = "1"
axum = "=0.7.9"
bytes = "=1.12.1"
clap = { version = "4", features = ["derive"] }
geojson = "=0.24.2"
petgraph = "=0.6.5"
rayon = "1"
serde = { version = "1", features = ["derive"] }
serde_json = "=1.0.154"
tokio = { version = "1", features = ["full"] }
tower-http = { version = "=0.5.2", features = ["cors"] }
