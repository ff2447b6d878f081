[package]
name = "group_select"
version = "0.1.0"
edition = "2021"
publish = false

[dependencies]
toml = "*"
z3 = "*"
