[package]
name = "collision2d"
version = "0.1.0"
edition = "2021"
publish = false

[dependencies]
amethyst_assets = "=0.15.3"
amethyst_core = "=0.15.3"
amethyst_error = "=0.15.3"
serde = { version = "=1.0.229", features = ["derive"] }
smallvec = "=1.16.4"
