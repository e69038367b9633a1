[package]
name = "memkv"
version = "0.1.0"
edition = "2021"
publish = false

[dependencies]
memmap = "0.7"
log = "0.4"
log4rs = "1"
tokio = { version = "1", features = ["macros", "rt-multi-thread"] }
uuid = { version = "1", features = ["v4"] }

[dev-dependencies]
serde_json = "1"
