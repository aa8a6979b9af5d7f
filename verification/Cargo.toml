[package]
name = "clam_core"
version = "0.1.0"
edition = "2021"
publish = false

[dependencies]
anyhow = "1"
chrono = { version = "0.4", default-features = false, features = ["now", "serde", "std"] }
reqwest = { version = "=0.13.5", default-features = false }
reqwest-middleware = { version = "0.5", default-features = false }
rmcp = { version = "=1.8.0", features = ["server", "macros", "transport-io", "elicitation", "schemars"] }
schemars = "1"
serde = { version = "1", features = ["derive"] }
serde_json = "=1.0.154"
solana-keypair = { version = "=3.1.2", default-features = false }
solana-pubkey = { version = "=3.0.0", default-features = false }
spl-associated-token-account = { version = "=8.0.0", default-features = false, features = ["no-entrypoint"] }
spl-token = { version = "=9.0.0", default-features = false, features = ["no-entrypoint"] }
thiserror = "2"
tokio = { version = "1", features = ["fs", "io-util", "macros", "rt-multi-thread", "sync"] }
tracing = "0.1"
tracing-subscriber = { version = "0.3", features = ["env-filter"] }
