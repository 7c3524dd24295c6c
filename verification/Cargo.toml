[package]
name = "dnsup"
version = "0.1.0"
edition = "2021"
publish = false

[dependencies]
anyhow = "*"
argparse = "*"
dirs = "*"
log = "*"
reqwest = { version = "*", default-features = false, features = ["json"] }
serde = { version = "*", features = ["derive"] }
serde_json = "*"
simple_logger = "*"
tokio = { version = "*", features = ["macros", "rt-multi-thread"] }
toml = "*"
