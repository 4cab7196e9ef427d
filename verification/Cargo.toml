[package]
name = "semantic_index"
version = "0.1.0"
edition = "2021"
publish = false

[dependencies]
anyhow = "1"
dirs-next = "2"
futures = "0.3"
futures-batch = "0.6"
heed = "0.21"
log = "0.4"
schemars = "0.8"
serde = { version = "1", features = ["derive"] }
serde_json = "1"
smol = "2"
uuid = { version = "1", features = ["v4"] }
