[package]
name = "toricelli"
version = "0.1.0"
edition = "2021"
publish = false

[dependencies]
chrono = { version = "0.4", features = ["serde"] }
clap = { version = "4", features = ["derive"] }
lexpr = "0.2"
orgize = ">=0.10.0-alpha.1, <0.11"
serde = { version = "1", features = ["derive"] }
serde_json = "1"
sprs = "*"
sqlite = "*"
toml = "*"
