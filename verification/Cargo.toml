[package]
name = "miaow"
version = "0.1.0"
edition = "2021"
publish = false

[dependencies]
byteorder = "1"
rand = "0.8"
mio = "0.6"
docopt = "1"
