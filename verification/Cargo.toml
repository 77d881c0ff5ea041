[package]
name = "concess"
version = "0.1.0"
edition = "2021"
publish = false

[dependencies]
anyhow = "*"
argon2 = "*"
futures = "*"
ldap3_proto = "*"
password-hash = "*"
serde = { version = "*", features = ["derive"] }
serde_yaml = "*"
structopt = "*"
tokio = { version = "*", features = ["rt-multi-thread", "macros", "net", "io-util", "signal", "fs", "sync"] }
tokio-util = { version = "*", features = ["codec"] }
tracing = "*"
tracing-subscriber = "*"
