[package]
name = "classname_wrap"
version = "0.1.0"
edition = "2021"
publish = false

[dependencies]
anyhow = "=1.0.104"
dprint-core = { version = "=0.70.0", features = ["formatting"] }
oxc = { version = "=0.139.0", features = ["ast_visit"] }
serde = { version = "=1.0.229", features = ["derive"] }
