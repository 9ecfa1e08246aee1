[package]
name = "supershell"
version = "0.1.0"
edition = "2021"
publish = false

[dependencies]
regex = "*"
serde = { version = "*", features = ["derive"] }
serde_yml = "*"
clap = { version = "*", features = ["derive"] }
directories = "*"
