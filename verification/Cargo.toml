[package]
name = "json_tree"
version = "0.1.0"
edition = "2021"
publish = false

[dependencies]
escape8259 = "*"
nom = { version = "5", default-features = false, features = ["std"] }
thiserror = "*"
