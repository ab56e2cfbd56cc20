[package]
name = "tilegrid"
version = "0.1.0"
edition = "2021"
publish = false

[dependencies]
chashmap = "*"
noise = "*"
parking_lot_core = "*"
rand = "*"
