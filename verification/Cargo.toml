[package]
name = "hyperloglog"
version = "0.1.0"
edition = "2021"

[dependencies]
md5 = "0.7"
regex = "1"
rusqlite = "*"
