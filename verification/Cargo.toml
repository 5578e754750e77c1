[package]
name = "mdlive"
version = "2.1.0"
edition = "2021"
publish = false

[dependencies]
anyhow = "1"
axum = { version = "0.7", features = ["ws"] }
dirs = "5"
futures-util = "0.3"
markdown = "1"
minijinja = { version = "2", features = ["json"] }
notify = "6"
rfd = { version = "0.15", default-features = false, features = ["xdg-portal", "tokio"] }
serde = { version = "1", features = ["derive"] }
serde_json = "1"
tokio = { version = "1", features = ["full"] }
