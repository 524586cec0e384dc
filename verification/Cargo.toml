[package]
name = "microchan"
version = "0.1.0"
edition = "2021"
publish = false

[dependencies]
encoding_rs = "0.8"
sha1 = "0.10"
sha2 = "0.10"
hmac = "0.12"
base64 = "0.22"
infer = "*"
rand = "0.8"
image = { version = "0.25", default-features = false, features = ["jpeg", "png", "gif", "webp"] }
ipnet = { version = "2", features = ["serde"] }
serde = { version = "1", features = ["derive"] }
serde_json = "1"
toml = "0.8"
anyhow = "1"
thiserror = "2"
axum = "0.8"
tokio = { version = "1", features = ["full"] }
tower-http = { version = "0.6", features = ["trace"] }
tracing = "0.1"
tracing-subscriber = { version = "0.3", features = ["env-filter"] }
dotenvy = "0.15"
chrono = { version = "0.4", features = ["serde"] }
sqlx = { version = "0.8", default-features = false, features = ["postgres", "runtime-tokio", "macros", "migrate", "chrono"] }

[dev-dependencies]
regex = "1"
