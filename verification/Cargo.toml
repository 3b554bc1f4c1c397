[package]
name = "tcp_stack"
version = "0.1.0"
edition = "2021"
publish = false

[dependencies]
rand = "=0.8.8"
etherparse = "=0.15.0"
tun-tap = { version = "=0.1.4", default-features = false, features = ["libc"] }
