[package]
name = "symphony_staking"
version = "0.1.0"
edition = "2021"
publish = false

[dependencies]
cosmwasm-std = "*"
cosmwasm-schema = "*"
cw-utils = "*"
cw-ownable = "*"
cw-storage-plus = "*"
cw-controllers = "*"
cw2 = "*"
thiserror = "*"
