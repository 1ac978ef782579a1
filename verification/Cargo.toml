[package]
name = "mdfr"
version = "0.1.0"
edition = "2021"
publish = false

[dependencies]
byteorder = "1"
chrono = { version = "0.4", default-features = false }
clap = "2"
encoding = "0.2"
encoding_rs = "0.8"
flate2 = "1"
half = "2"
roxmltree = "*"
