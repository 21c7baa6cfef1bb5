[package]
name = "ablive_scheduler"
version = "0.1.0"
edition = "2021"
publish = false

[dependencies]
bson = "*"
chrono = "*"
config = "*"
futures = "*"
mongodb = "*"
serde = { version = "*", features = ["derive"] }
tokio = { version = "*", features = ["macros", "rt-multi-thread"] }
