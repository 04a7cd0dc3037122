[package]
name = "xsv"
version = "0.1.0"
edition = "2021"
publish = false

[dependencies]
byteorder = "=1.5.0"
rand = "=0.10.3"
csv = "=1.4.0"
