[package]
name = "plbot"
version = "0.1.0"
edition = "2021"
publish = false

[dependencies]
hex = "0.4"
md-5 = "0.10"
mediawiki = "*"
serde_json = "1"
tokio = { version = "1", features = ["rt", "macros"] }
