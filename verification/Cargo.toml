[package]
name = "cfgparser"
version = "0.1.0"
edition = "2021"
publish = false

[dependencies]
indexmap = "1"
prettytable-rs = "0.10"
