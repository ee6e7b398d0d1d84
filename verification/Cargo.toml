[package]
name = "rate_alert"
version = "0.1.0"
edition = "2021"
publish = false

[dependencies]
lettre = { version = "=0.11.23", default-features = false, features = ["smtp-transport", "builder", "rustls-tls"] }
reqwest = { version = "0.12", default-features = false }
tokio = { version = "1", features = ["macros", "rt-multi-thread"] }
dotenv = "0.15"
