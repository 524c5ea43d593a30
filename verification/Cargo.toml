[package]
name = "c8y_opcua_gateway"
version = "0.1.0"
edition = "2021"
publish = false

[dependencies]
anyhow = "1"
async-opcua = { version = "*", default-features = false, features = ["client"] }
async-opcua-types = { version = "*", default-features = false }
clap = { version = "4", features = ["derive"] }
figment = { version = "0.10", features = ["toml", "env"] }
percent-encoding = "2"
reqwest = { version = "0.12", default-features = false, features = ["json", "rustls-tls"] }
rumqttc = { version = "*", default-features = false }
serde = { version = "1", features = ["derive"] }
serde_json = "1"
thiserror = "2"
tokio = { version = "1", features = ["macros", "rt-multi-thread", "signal", "sync", "time"] }
tokio-util = "0.7"
toml = "0.8"
tracing = "0.1"
tracing-subscriber = { version = "0.3", features = ["env-filter"] }
