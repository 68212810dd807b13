[package]
name = "tuenti"
version = "0.1.0"
edition = "2021"
publish = false

[dependencies]
crc32fast = "1"
lazy_static = "1"
lp-modeler = "0.4"
num = "0.4"
rayon = "1"
regex = "1"
telnet = "0.2"
