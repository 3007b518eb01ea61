[package]
name = "medici_data_sync"
version = "0.1.0"
edition = "2021"
publish = false

[dependencies]
blake3 = "*"
uuid = { version = "*", features = ["v4", "serde"] }
serde = { version = "*", features = ["derive"] }
serde_json = "*"
anyhow = "*"
chrono = { version = "*", features = ["serde"] }
clap = { version = "*", features = ["derive", "env"] }
dotenvy = "*"
reqwest = { version = "*", default-features = false, features = ["json"] }
secrecy = { version = "*", features = ["serde"] }
tokio = { version = "*", features = ["macros", "rt-multi-thread"] }
url = "*"
