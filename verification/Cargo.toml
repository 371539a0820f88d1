[package]
name = "zipserve"
version = "0.1.0"
edition = "2021"
publish = false

[dependencies]
zip = { version = "*", default-features = false, features = ["deflate"] }
hyper = { version = "0.14", features = ["server", "http1", "tcp", "runtime"] }
hyperlocal = "0.8"
tokio = { version = "1", features = ["rt-multi-thread", "macros", "signal", "net"] }
futures-channel = "*"
atomic-take = "*"
log = "*"
simple_logger = "*"
clap = { version = "*", features = ["derive"] }
