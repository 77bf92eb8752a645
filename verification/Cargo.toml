[package]
name = "limitchain"
version = "0.1.0"
edition = "2021"
publish = false

[dependencies]
anyhow = "1"
async-openai = "0.14"
async-trait = "0.1"
colored = "2"
dotenvy = "0.15"
futures = "0.3"
hmac = "0.12"
http = "0.2"
jwt = "0.16"
quick-xml = "0.31"
regex = "1"
reqwest = { version = "0.11", default-features = false, features = ["json", "rustls-tls"] }
serde = { version = "1", features = ["derive"] }
serde_json = "1"
sha2 = "0.10"
tokio = { version = "1", features = ["full"] }
zip = { version = "0.6", default-features = false, features = ["deflate"] }
