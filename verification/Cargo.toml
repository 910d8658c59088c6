[package]
name = "poll"
version = "0.1.0"
edition = "2021"
publish = false

[dependencies]
uuid = "1"
actix-cors = "*"
actix-files = "*"
actix-identity = "*"
actix-session = { version = "*", features = ["cookie-session"] }
actix-web = "4"
actix-web-flash-messages = { version = "*", features = ["cookies"] }
anyhow = "1"
async-trait = "*"
clap = { version = "4", features = ["derive"] }
config = "*"
futures = "0.3"
secrecy = { version = "*", features = ["serde"] }
serde = { version = "1", features = ["derive"] }
sqlx = { version = "0.7", features = ["runtime-tokio-rustls", "mysql", "migrate", "uuid"] }
thiserror = "1"
tokio = { version = "1", features = ["macros", "rt-multi-thread"] }
