[package]
name = "trip_atlas"
version = "0.1.0"
edition = "2021"
publish = false

[dependencies]
anyhow = "*"
clap = { version = "*", features = ["derive"] }
gtfs-structures = { version = "*", default-features = false }
memmap2 = "*"
serde = { version = "*", features = ["derive"] }
serde_json = "*"
