[package]
name = "rs_player"
version = "0.1.0"
edition = "2021"
publish = false

[dependencies]
conrod = "0.61.1"
rodio = "0.9"
