[package]
name = "anime_database_lib"
version = "0.1.0"
edition = "2021"
publish = false

[dependencies]
serde = { version = "*", features = ["derive"] }
flexbuffers = "*"
walkdir = "*"
thiserror = "*"
