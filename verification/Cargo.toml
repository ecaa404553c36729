[package]
name = "checkr_core"
version = "0.1.0"
edition = "2021"
publish = false

[dependencies]
la-arena = "=0.3.1"
clap = { version = "4", features = ["derive"] }

[dev-dependencies]
plex = "0.3"
