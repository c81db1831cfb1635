[package]
name = "basic_cookies"
version = "0.1.0"
edition = "2021"
publish = false

[dependencies]
lalrpop-util = "*"
