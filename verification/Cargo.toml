[package]
name = "bruhbot"
version = "0.1.0"
edition = "2021"
publish = false

[dependencies]
rand = "=0.8.8"
serde = { version = "1", features = ["derive"] }
reqwest = { version = "0.12", default-features = false, features = ["json", "rustls-tls"] }
tokio = { version = "1", features = ["macros", "rt-multi-thread", "sync", "time"] }
dotenvy = "0.15"
serenity = { version = "0.12", default-features = false, features = ["builder", "cache", "client", "gateway", "http", "model", "rustls_backend", "utils", "voice"] }
songbird = { version = "0.4", default-features = false, features = ["driver", "gateway", "serenity", "rustls"] }
tracing = "0.1"
tracing-subscriber = "0.3"
