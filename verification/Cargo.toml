[package]
name = "defi_exchange"
version = "0.1.0"
edition = "2021"
publish = false

[dependencies]
num-bigint = "*"
candid = "*"
serde = "*"
ic-cdk = "*"
ic-cdk-macros = "*"
ic-ledger-types = "*"
