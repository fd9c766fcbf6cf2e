[package]
name = "zmij_ecma"
version = "0.1.0"
edition = "2021"
publish = false

[dependencies]
ryu_floating_decimal = "*"

[dev-dependencies]
ryu-js = "=1.0.3"
