[package]
name = "icy_meta"
version = "0.1.0"
edition = "2021"
publish = false

[dependencies]
irc = { version = "*", default-features = false }
reqwest = { version = "*", default-features = false, features = ["stream"] }
tokio = { version = "*", features = ["macros", "rt-multi-thread"] }
futures-util = "*"
