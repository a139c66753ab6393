[package]
name = "stardex_vault_core"
version = "0.1.0"
edition = "2021"
publish = false

[dependencies]
cosmwasm-std = { version = "=3.0.10", features = ["cosmwasm_1_2"] }
