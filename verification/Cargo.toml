[package]
name = "photo_graph"
version = "0.1.0"
edition = "2021"
publish = false

[dependencies]
actix-web = "4"
actix-multipart = "*"
argon2 = "*"
chrono = "*"
cookie = "*"
dotenv = "*"
image = { version = "*", default-features = false, features = ["png", "jpeg"] }
jsonwebtoken = "9"
lazy_static = "*"
memory-stats = "*"
serde = { version = "1", features = ["derive"] }
serde_json = "1"
sqlx = { version = "*", default-features = false, features = ["sqlite", "runtime-tokio", "migrate"] }
thiserror = "*"
tokio-stream = "*"
uuid = { version = "*", features = ["v4"] }
