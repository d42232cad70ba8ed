[package]
name = "oxidized_relay"
version = "0.1.0"
edition = "2021"
publish = false

[dependencies]
anyhow = "1"
chacha20 = "0.9"
clap = { version = "4", features = ["derive"] }
colored = "2"
crc32fast = "1"
dialoguer = "0.11"
etherparse = "0.16"
hex = "0.4"
pcap-file = "2"
prost-types = "0.13"
protox = "0.7"
