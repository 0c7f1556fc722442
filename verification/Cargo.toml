[package]
name = "dav_server"
version = "0.1.0"
edition = "2021"
publish = false

[dependencies]
bytes = "1"
futures-util = "0.3"
http = "1"
hyper = "1"
