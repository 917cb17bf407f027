[package]
name = "cbench"
version = "0.1.0"
edition = "2021"
publish = false

[dependencies]
aes-gcm = "*"
rand = "*"
sha3 = "*"
fastrand = "*"
anyhow = "*"
tokio = { version = "*", features = ["rt-multi-thread", "macros", "signal"] }
clap = { version = "*", features = ["derive"] }
rayon = "*"
blas-rs = "=1.0.0-alpha.10"
wgpu = "*"
