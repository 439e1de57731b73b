[package]
name = "pico_webserver"
version = "0.1.0"
edition = "2021"
publish = false

[dependencies]
cyw43 = "*"
cyw43-pio = "*"
embassy-executor = "*"
embassy-net = { version = "*", features = ["tcp", "dhcpv4", "proto-ipv4"] }
embassy-rp = "*"
embassy-time = "*"
embedded-io-async = "*"
panic-halt = "*"
riscv = "*"
static_cell = "*"
