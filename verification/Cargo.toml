[package]
name = "roost"
version = "0.1.0"
edition = "2021"
publish = false

[dependencies]
anyhow = "1"
chrono = "=0.4.45"
clap = { version = "4", features = ["derive"] }
directories = "*"
fs2 = "0.4"
http = "1"
http-body-util = "0.1"
hyper = { version = "1", features = ["http1", "server", "client"] }
hyper-util = { version = "0.1", features = ["server", "server-auto", "client", "client-legacy", "http1", "tokio"] }
libc = "0.2"
rcgen = { version = "=0.13.2", features = ["pem", "crypto", "ring", "x509-parser"], default-features = false }
rustls = { version = "0.23", features = ["ring", "logging", "std", "tls12"], default-features = false }
rustls-pemfile = "=2.2.0"
serde = { version = "1", features = ["derive"] }
serde_json = "1"
time = "=0.3.55"
tokio = { version = "1", features = ["rt-multi-thread", "net", "io-util", "macros"] }
tokio-rustls = { version = "0.26", features = ["ring", "logging", "tls12"], default-features = false }
toml = "0.8"
x509-parser = "=0.16.0"
