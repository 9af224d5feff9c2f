[package]
name = "kittest"
version = "0.1.0"
edition = "2021"
publish = false

[dependencies]
accesskit = "*"
accesskit_consumer = "*"
parking_lot = "*"
lock_api = "*"
