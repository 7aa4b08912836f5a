[package]
name = "booking_cache"
version = "0.1.0"
edition = "2021"
publish = false

[dependencies]
chrono = "*"
serde = { version = "*", features = ["derive"] }
serde_json = "*"
serde_yaml = "*"
dotenv = "*"
tokio = { version = "*", features = ["rt-multi-thread", "macros", "time"] }
thirtyfour = "*"
rand = "*"
