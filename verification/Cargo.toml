[package]
name = "calculate_differences"
version = "0.1.0"
edition = "2021"
publish = false

[dependencies]
csv = "1"
itertools = "0.10"
serde = { version = "1", features = ["derive"] }
serde_json = "1"
structopt = "0.3"
thiserror = "1"
log = "0.4"
env_logger = "0.9"
dotenv = "0.15"
