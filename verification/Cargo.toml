[package]
name = "austral_cranelift_bridge"
version = "0.1.0"
edition = "2021"
publish = false

[dependencies]
cranelift-codegen = "=0.131.3"
cranelift-frontend = "=0.131.3"
cranelift-jit = "=0.131.3"
cranelift-module = "=0.131.3"
cranelift-native = "=0.131.3"
target-lexicon = "=0.13.5"
cedar-policy = "=4.14.1"
cap-std = "=4.0.3"
curve25519-dalek = "=5.0.0"
toml = "=1.1.8"
serde = { version = "=1.0.229", features = ["derive"] }
serde_json = "=1.0.154"
hex = "=0.4.3"
libc = "=0.2.191"
thiserror = "=2.0.21"
