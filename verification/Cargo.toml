[package]
name = "stake_pool_backend"
version = "0.1.0"
edition = "2021"
publish = false

[dependencies]
candid = "*"
ic-cdk = "*"
ic-ledger-types = "*"
icrc-ledger-types = "*"
