[package]
name = "trmnl_rtd"
version = "0.1.0"
edition = "2021"
publish = false

[dependencies]
chrono = "0.4"
chrono-tz = "*"
zip = { version = "*", default-features = false, features = ["deflate"] }
csv = "1"
serde = { version = "1", features = ["derive"] }
serde_json = "1"
prost = "*"
reqwest = { version = "*", default-features = false, features = ["rustls-tls"] }
tokio = { version = "1", features = ["macros", "rt-multi-thread"] }
worker = "*"
console_error_panic_hook = "*"
