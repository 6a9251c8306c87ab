[package]
name = "lwpkt"
version = "0.1.0"
edition = "2021"

[dependencies]
async-channel = "2"
