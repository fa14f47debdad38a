[package]
name = "port_sniffer"
version = "0.1.0"
edition = "2021"
publish = false

[dependencies]
clap = { version = "4", features = ["derive"] }
colored = "*"
ctrlc = "*"
dns-lookup = "*"
env_logger = "*"
indicatif = "*"
log = "*"
