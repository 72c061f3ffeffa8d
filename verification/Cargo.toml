[package]
name = "pcb_schematic"
version = "0.1.0"
edition = "2021"
publish = false

[dependencies]
natord = "1"
uuid = { version = "1", features = ["v5"] }
serde_json = "1"
serde = { version = "1", features = ["derive"] }
anyhow = "1"
clap = { version = "4", features = ["derive"] }
log = "0.4"
