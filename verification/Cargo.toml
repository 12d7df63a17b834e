[package]
name = "layerstore"
version = "0.1.0"
edition = "2021"
publish = false

[dependencies]
opendal = { version = "=0.50.2", default-features = false, features = ["services-memory", "layers-fastrace"] }
tokio = { version = "=1.53.2", features = ["macros", "rt-multi-thread"] }
