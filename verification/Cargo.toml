[package]
name = "exec_commands"
version = "0.1.0"
edition = "2021"
publish = false

[dependencies]
anyhow = "=1.0.104"
atty = "=0.2.14"
clap = { version = "=3.2.25", features = ["derive"] }
console = "=0.15.11"
glob = "=0.3.4"
serde = { version = "=1.0.229", features = ["derive"] }
serde_yaml = "=0.9.34"
similar = { version = "=2.7.0", features = ["inline"] }
tempfile = "=3.27.0"
