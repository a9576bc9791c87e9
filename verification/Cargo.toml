[package]
name = "wallpaper_processor"
version = "0.1.0"
edition = "2021"
publish = false

[dependencies]
image = "0.23"
log = "0.4"
smithay-client-toolkit = "0.15"
