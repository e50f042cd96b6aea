[package]
name = "electrs"
version = "0.4.1"
edition = "2021"
publish = false

[dependencies]
bitcoin = "=0.32.102"
crossbeam-channel = "=0.5.17"
elements = "=0.25.3"
log = "=0.4.35"
rust-crypto = "=0.2.36"
serde_json = "=1.0.154"
socket2 = "*"
