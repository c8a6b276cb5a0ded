[package]
name = "serv"
version = "0.4.0"
edition = "2021"
publish = false

[dependencies]
clap = { version = "4", features = ["derive"] }
damask = "*"
env_logger = { version = "*", default-features = false }
flate2 = "1"
futures-core = "0.3"
http-body-util = "0.1"
httpdate = "1"
hyper = { version = "1", features = ["server", "http1"] }
hyper-util = { version = "0.1", features = ["tokio"] }
log = "0.4"
mime_guess = "2"
percent-encoding = "2"
pulldown-cmark = { version = "*", default-features = false, features = ["html"] }
tokio = { version = "1", features = ["rt-multi-thread", "macros", "net", "fs", "io-util"] }
tokio-util = { version = "0.7", features = ["io"] }
