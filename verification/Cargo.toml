[package]
name = "insysin_lib"
version = "0.1.0"
edition = "2021"
publish = false

[dependencies]
chrono = "0.4"
futures-util = "0.3"
libc = "0.2"
rusqlite = { version = "*", features = ["bundled"] }
serde = { version = "1", features = ["derive"] }
serde_json = "1"
sysinfo = "*"
tokio = { version = "1", features = ["net", "rt-multi-thread", "macros"] }
tokio-tungstenite = "*"
ureq = { version = "2", features = ["json"] }
