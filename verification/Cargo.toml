[package]
name = "kingsearch"
version = "0.1.0"
edition = "2021"
publish = false

[dependencies]
libbucharesthashing = "=0.1.12"
stylus-sdk = "=0.8.4"
ruint = "=1.12.3"
