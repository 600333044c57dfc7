[package]
name = "textchain"
version = "0.1.0"
edition = "2021"
publish = false

[dependencies]
anyhow = "=1.0.104"
async-openai = { version = "=0.42.1", features = ["chat-completion", "embedding"] }
async-trait = "=0.1.92"
serde = { version = "=1.0.229", features = ["derive"] }
slack-morphism = { version = "=2.29.0", features = ["hyper"] }
uuid = { version = "=1.27.0", features = ["v4"] }
