[package]
name = "pliron_clif"
version = "0.1.0"
edition = "2021"
publish = false

[dependencies]
cranelift-codegen = "=0.133.3"
pliron = "=0.20.0"
rustc-hash = "=2.1.3"

[dev-dependencies]
cranelift-reader = "=0.133.3"
