[package]
name = "minecraft_mod_organizer"
version = "0.1.0"
edition = "2021"
publish = false

[dependencies]
base64 = "0.22"
notify = "8"
parking_lot = "0.12"
rusqlite = { version = "0.32", features = ["bundled"] }
serde = { version = "1", features = ["derive"] }
serde_json = "1"
tauri = { version = "2", default-features = false }
thiserror = "2"
toml = "0.8"
uuid = { version = "1", features = ["v4", "v5"] }
zip = { version = "2", default-features = false, features = ["deflate"] }
