[package]
name = "blaze_db"
version = "0.1.0"
edition = "2021"
publish = false

[dependencies]
chrono = "0.4"
uuid = { version = "1", features = ["v4"] }
serde = { version = "1", features = ["derive"] }
serde_json = "1"
tokio = { version = "1", features = ["full"] }
axum = "0.8"
anyhow = "1"
rand = "0.9"
dirs = "6"
lru = "*"
sha2 = "0.10"
wincode = { version = "*", features = ["derive"] }
zstd = "0.13"
tar = "0.4"
clap = { version = "4", features = ["derive"] }
reqwest = { version = "0.12", default-features = false, features = ["json"] }
memmap2 = "0.9"
rayon = "1"
colored = "*"
dotenv = "0.15"
toml = "*"
lazy_static = "1"
