[package]
name = "dupdirs"
version = "0.1.0"
edition = "2021"
publish = false

[dependencies]
crc32fast = "=1.5.3"
humanize-rs = "=0.1.5"
indicatif = "0.17"
structopt = "=0.3.26"
walkdir = "=2.5.0"
