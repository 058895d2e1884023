[package]
name = "dns_auto_routes"
version = "0.1.0"
edition = "2021"
publish = false

[dependencies]
clap = { version = "=3.2.25", features = ["derive"] }
env_logger = "*"
etherparse = "=0.13.0"
log = "*"
pcap = "=0.11.0"
sqlite = "=0.26.0"
trust-dns-proto = "*"
