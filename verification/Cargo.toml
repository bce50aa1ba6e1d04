[package]
name = "pay_split"
version = "0.1.0"
edition = "2021"
publish = false

[dependencies]
libadwaita = "0.5"
