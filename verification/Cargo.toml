[package]
name = "fio"
version = "0.1.0"
edition = "2021"
publish = false

[dependencies]
bytes = "1"
httparse = "1"
num_cpus = "1"
tokio = { version = "1", features = ["rt", "rt-multi-thread", "net", "io-util"] }
tokio-uring = "0.5"
url = "2"
