[package]
name = "kokoros"
version = "0.1.0"
edition = "2021"
publish = false

[dependencies]
atty = "=0.2.14"
clap = { version = "=4.6.7", features = ["derive"] }
espeak-rs = "=0.2.0"
hound = "=3.5.1"
lazy_static = "=1.5.1"
ndarray = "=0.16.1"
ndarray-npy = "=0.9.1"
ort = { version = "=2.0.0-rc.15", default-features = false, features = ["std", "load-dynamic", "api-31"] }
tokio = { version = "=1.54.1", features = ["rt-multi-thread", "io-util", "io-std", "net", "macros"] }
tracing = "=0.1.44"
tracing-subscriber = { version = "=0.3.23", features = ["env-filter"] }
