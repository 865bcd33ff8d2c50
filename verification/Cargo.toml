[package]
name = "pack_unpack"
version = "0.1.0"
edition = "2021"
publish = false

[dependencies]
argh = "*"
assembly-pack = { version = "=0.5.2", features = ["pk", "pki", "manifest", "async", "md5sum"] }
env_logger = "*"
globset = "=0.4.20"
log = "*"
thiserror = "*"
tokio = { version = "*", features = ["fs", "io-util", "macros", "rt-multi-thread"] }
tokio-stream = { version = "*", features = ["io-util"] }
