[package]
name = "bocu1"
version = "0.1.0"
edition = "2021"
publish = false

[dependencies]
cty = "*"
num-integer = "*"
try_from = "*"

[dev-dependencies]
env_logger = "*"
quickcheck = { version = "*", default-features = false }
