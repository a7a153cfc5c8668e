[package]
name = "proxmox_resource_scheduling"
version = "0.1.0"
edition = "2021"

[dependencies]
num-bigint = "*"
anyhow = "1"
serde = { version = "1", features = ["derive"] }
