[package]
name = "open_nd"
version = "0.1.0"
edition = "2021"
publish = false

[dependencies]
png = "0.16"
structopt = "0.3"
minifb = "0.19"
rodio = "0.11"
