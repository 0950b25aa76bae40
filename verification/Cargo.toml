[package]
name = "gerryaway"
version = "0.1.0"
edition = "2021"
publish = false

[dependencies]
clap = { version = "4", features = ["derive"] }
geojson = "*"
priority-queue = "*"
