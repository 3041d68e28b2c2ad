[package]
name = "idv_storage"
version = "0.1.0"
edition = "2021"
publish = false

[dependencies]
hibitset = { version = "0.6", default-features = false }
specs = { version = "0.16", default-features = false }
