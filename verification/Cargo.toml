[package]
name = "csvbuttler"
version = "0.1.0"
edition = "2021"
publish = false

[dependencies]
jsonwebtoken = { version = "=11.1.0", features = ["rust_crypto"] }
hex = "=0.4.3"
chrono = "=0.4.45"
serde = { version = "*", features = ["derive"] }
serde_json = "*"
actix-web = "*"
actix-cors = "*"
actix-identity = "*"
structopt = "*"
dotenv = "*"
env_logger = "*"
listenfd = "*"
reqwest = { version = "*", features = ["blocking"] }
