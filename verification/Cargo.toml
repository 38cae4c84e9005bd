[package]
name = "magma_proxy"
version = "0.1.0"
edition = "2021"
publish = false

[dependencies]
mutf8 = "*"
bytes = "*"
clap = { version = "*", features = ["derive", "env"] }
mysql_async = "*"
tokio = { version = "*", features = ["full"] }
tracing-subscriber = "*"
