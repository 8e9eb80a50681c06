[package]
name = "calc_engine"
version = "0.1.0"
edition = "2021"
publish = false

[dependencies]
rusty_dumb_tools = "*"
