[package]
name = "jwt_auth"
version = "0.1.0"
edition = "2021"
publish = false

[dependencies]
jsonwebtoken = { version = "=11.1.0", features = ["rust_crypto"] }
serde = { version = "=1.0.229", features = ["derive"] }
serde_json = "=1.0.151"
mongodb = { version = "=3.9.1", features = ["sync"] }
uuid = { version = "=1.27.0", features = ["v4"] }
chrono = "=0.4.45"
dotenv = "=0.15.0"
