[package]
name = "rust_graphql_kata_001_web"
version = "0.1.0"
edition = "2021"
publish = false

[dependencies]
base64 = "0.13"
time = "0.2"
uuid = { version = "0.8", features = ["v4"] }
config = { version = "0.11", default-features = false }
serde = { version = "1", features = ["derive"] }
tracing = "0.1"
tracing-subscriber = { version = "0.3", features = ["env-filter", "registry"] }
tracing-bunyan-formatter = "0.3"
actix-web = "4"
async-graphql = "2"
sqlx = { version = "0.5", default-features = false, features = ["runtime-actix-rustls", "postgres", "time", "migrate"] }
