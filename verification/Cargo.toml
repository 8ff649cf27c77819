[package]
name = "rpack"
version = "0.1.0"
edition = "2021"
publish = false

[dependencies]
texture_packer = "*"
image = "*"
clap = { version = "*", features = ["derive"] }
glob = "*"
anyhow = "*"
serde_json = { version = "*", features = ["preserve_order"] }
