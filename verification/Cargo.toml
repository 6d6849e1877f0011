[package]
name = "client_ip"
version = "0.1.0"
edition = "2021"
publish = false

[dependencies]
http = "*"
forwarded-header-value = "*"
