[package]
name = "async_web_server"
version = "0.1.0"
edition = "2021"
publish = false

[dependencies]
async-http-codec = "*"
async-io = "*"
async-net = "*"
async-ws = "*"
futures = "0.3"
http = "*"
log = "0.4"
rustls-acme = "0.9"
rustls-pemfile = "1"
