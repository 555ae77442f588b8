[package]
name = "um_jit"
version = "0.1.0"
edition = "2021"
publish = false

[dependencies]
anyhow = "=1.0.104"
clap = { version = "=4.6.7", features = ["derive"] }
cranelift = "=0.134.4"
cranelift-jit = "=0.134.4"
cranelift-module = "=0.134.4"
cranelift-native = "=0.134.4"
