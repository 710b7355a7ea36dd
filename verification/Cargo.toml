[package]
name = "calculator"
version = "0.1.0"
edition = "2021"

[dependencies]
actix-cors = "0.7"
actix-web = "4"
serde = { version = "1", features = ["derive"] }
