[package]
name = "sapipiru"
version = "0.1.0"
edition = "2021"
publish = false

[dependencies]
iced = { version = "=0.3.0", default-features = false, features = ["wgpu"] }
reqwest = { version = "=0.11.27", default-features = false, features = ["blocking", "rustls-tls"] }
