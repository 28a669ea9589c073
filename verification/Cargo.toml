[package]
name = "rusty_journal"
version = "0.1.0"
edition = "2021"
publish = false

[dependencies]
chrono = "0.4"
home = "0.5"
structopt = "0.3"

[dev-dependencies]
serde_json = "1"
