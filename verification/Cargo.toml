[package]
name = "zed-workspace-dock"
version = "0.1.1"
edition = "2021"
publish = false

[dependencies]
dirs = "6"
getrandom = "0.3"
hex = "0.4"
serde = { version = "1", features = ["derive"] }
serde_json = "1"
sha2 = "0.10"
thiserror = "2"
