[package]
name = "bookworm"
version = "0.1.0"
edition = "2021"
publish = false

[dependencies]
tokio = { version = "1", features = ["sync", "rt-multi-thread", "macros", "time"] }
tokio-stream = "0.1"
tokio-tungstenite = { version = "*", features = ["native-tls"] }
futures-util = "0.3"
native-tls = "0.2"
serde = { version = "1", features = ["derive"] }
serde_json = "1"
tonic = "*"
prost = "*"
tracing = "0.1"
tracing-subscriber = "0.3"
uuid = { version = "1", features = ["v4"] }
reqwest = "*"
