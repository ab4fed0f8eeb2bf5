[package]
name = "claims_engine"
version = "0.1.0"
edition = "2021"
publish = false

[dependencies]
tokio = { version = "=1.53.2", features = ["rt-multi-thread", "macros", "sync", "net"] }
axum = "=0.8.9"
tower-http = { version = "=0.7.1", features = ["trace"] }
clap = { version = "=4.6.7", features = ["derive", "env"] }
url = "=2.5.8"
serde = { version = "=1.0.229", features = ["derive"] }
serde_json = "=1.0.151"
error-stack = "=0.8.0"
thiserror = "=2.0.21"
tracing = "=0.1.44"
console = "=0.16.6"
ron = "=0.10.1"
ron_to_table = "=0.10.0"
tabled = "=0.22.0"
serde-value = "=0.7.0"
ory-hydra-client = "=26.2.0"
ory-kratos-client = "=26.2.0"
