[package]
name = "sellershut"
version = "0.1.0"
edition = "2021"
publish = false

[dependencies]
base64 = "*"
nanoid = "*"
anyhow = "*"
tokio = { version = "*", features = ["macros", "rt-multi-thread", "net", "signal"] }
sqlx = { version = "*", default-features = false, features = ["runtime-tokio", "postgres", "macros"] }
redis = { version = "*", features = ["tokio-comp"] }
async-nats = "*"
futures-util = "*"
serde = { version = "*", features = ["derive"] }
serde_json = "*"
dotenvy = "*"
