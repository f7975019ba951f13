[package]
name = "memea"
version = "0.1.0"
edition = "2021"
publish = false

[dependencies]
clap = { version = "*", features = ["derive"] }
csv = "*"
dialoguer = "*"
gds21 = "*"
serde = { version = "*", features = ["derive"] }
serde_json = "*"
serde_yaml = "*"
shellexpand = "*"
terminal_size = "*"
thiserror = "*"
