[package]
name = "logbook"
version = "0.1.3"
edition = "2021"
publish = false

[dependencies]
chrono = "0.4"
clap = { version = "4", features = ["derive"] }
env_logger = "0.10"
log = "0.4"
serde_json = "1"
textwrap = "0.16"

[dev-dependencies]
rev_lines = "0.2"
