[package]
name = "btp"
version = "0.1.0"
edition = "2021"
publish = false

[dependencies]
sha1 = "0.6"
percent-encoding = "2"
rand = "0.7"
chrono = "0.4"
byteorder = "1"
clap = "2"
