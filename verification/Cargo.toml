[package]
name = "nano_vault"
version = "0.1.0"
edition = "2021"
publish = false

[dependencies]
ledger_device_sdk = "*"
zeroize = "*"
