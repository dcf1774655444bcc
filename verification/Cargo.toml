[package]
name = "context_footprint"
version = "0.1.0"
edition = "2021"
publish = false

[dependencies]
petgraph = "*"
regex = "1"
serde = { version = "1", features = ["derive"] }
serde_json = "1"
anyhow = "1"
clap = { version = "4", features = ["derive"] }
prost = "*"
memmap2 = "*"
tokio = { version = "1", features = ["full"] }
axum = "*"
tower-http = { version = "*", features = ["cors", "trace"] }
tracing-subscriber = { version = "*", features = ["env-filter"] }
rmcp = { version = "*", features = ["server", "transport-io"] }
