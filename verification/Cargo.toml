[package]
name = "tidy_slack"
version = "0.1.0"
edition = "2021"
publish = false

[dependencies]
clap = "*"
colored = "*"
env_logger = "*"
indicatif = "*"
log = "*"
num-format = "*"
reqwest = { version = "*", default-features = false, features = ["blocking", "query"] }
serde = { version = "*", features = ["derive"] }
serde_json = "*"
