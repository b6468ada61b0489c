[package]
name = "maze"
version = "0.1.0"
edition = "2021"
publish = false

[dependencies]
rand = "=0.8.8"
gif = "=0.13.3"
clap = "=4.6.7"
