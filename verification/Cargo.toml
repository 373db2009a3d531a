[package]
name = "lambda_otel_relay"
version = "0.1.0"
edition = "2021"
publish = false

[dependencies]
base64 = "*"
bytes = "*"
flate2 = "*"
http-body-util = "*"
hyper = { version = "*", features = ["server", "http1", "http2"] }
hyper-util = { version = "*", features = ["server", "server-auto", "http1", "http2", "tokio"] }
nanoserde = "*"
reqwest = { version = "*", default-features = false, features = ["rustls-tls"] }
rustls = { version = "*", default-features = false, features = ["ring", "std", "logging", "tls12"] }
serde = { version = "*", features = ["derive"] }
serde_json = "*"
tokio = { version = "*", features = ["rt", "rt-multi-thread", "macros", "sync", "time", "net", "io-util"] }
tokio-util = { version = "*", features = ["rt"] }
url = "*"
