[package]
name = "yomiage"
version = "0.1.0"
edition = "2021"
publish = false

[dependencies]
anyhow = "=1.0.104"
dotenvy = "=0.15.7"
reqwest = { version = "=0.12.28", default-features = false }
serenity = { version = "=0.12.5", default-features = false, features = ["builder", "cache", "client", "gateway", "model", "http", "utils", "native_tls_backend"] }
songbird = { version = "=0.4.6", default-features = false, features = ["driver", "gateway", "serenity", "native", "builtin-queue"] }
tokio = { version = "=1.54.1", features = ["macros", "rt-multi-thread", "sync", "signal"] }
