[package]
name = "relay_core"
version = "0.1.0"
edition = "2021"
publish = false

[dependencies]
actix-governor = "*"
actix-web = { version = "4", default-features = false, features = ["macros", "cookies"] }
chrono = "0.4"
dashmap = "*"
futures = "0.3"
heed = "*"
lru = "*"
lz4_flex = "*"
moka = { version = "0.12", features = ["future"] }
reqwest = { version = "0.12", default-features = false, features = ["json", "rustls-tls"] }
rocket = { version = "0.5", features = ["json"] }
serde = { version = "1", features = ["derive"] }
serde_json = "1"
simd-json = "*"
tokio = { version = "1", features = ["macros", "rt-multi-thread", "sync"] }
uuid = { version = "1", features = ["serde"] }
