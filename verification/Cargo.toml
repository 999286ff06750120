[package]
name = "russus_launcher"
version = "0.1.0"
edition = "2021"
publish = false

[dependencies]
serde = { version = "1", features = ["derive"] }
serde_json = "1"
reqwest = { version = "0.12", default-features = false, features = ["json", "stream"] }
tokio = { version = "1", features = ["fs", "process", "time", "io-util", "rt", "macros"] }
futures-util = "0.3"
dirs = "6"
tauri = { version = "2", default-features = false, features = ["tray-icon"] }
