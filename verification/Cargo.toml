[package]
name = "location_mode"
version = "0.1.0"
edition = "2021"
publish = false

[dependencies]
csv = "*"
chrono = "*"
dotenv = "*"
lambda_http = "*"
rusoto_core = { version = "*", default-features = false, features = ["rustls"] }
rusoto_logs = { version = "*", default-features = false, features = ["rustls"] }
rusoto_xray = { version = "*", default-features = false, features = ["rustls"] }
tokio = { version = "*", features = ["macros", "rt-multi-thread"] }
tracing = "*"
tracing-subscriber = { version = "*", features = ["env-filter"] }
uuid = { version = "*", features = ["v4"] }
