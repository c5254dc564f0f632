[package]
name = "btrs"
version = "0.1.0"
edition = "2021"
publish = false

[dependencies]
ben = "*"
data-encoding = "2"
percent-encoding = "2"
url = "2"
rand = "0.7"
byteorder = "1"
anyhow = "1"
clap = "2"
