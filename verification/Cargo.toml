[package]
name = "async_rustbus"
version = "0.1.0"
edition = "2021"
publish = false

[dependencies]
rustbus = "0.14"
async-std = { version = "1", features = ["unstable"] }
async-io = "1"
futures = "0.3"
libc = "0.2"
arrayvec = "0.7"

[dev-dependencies]
rand = "0.8"
