[package]
name = "trickydata_compiler"
version = "0.1.0"
edition = "2021"
publish = false

[dependencies]
anyhow = "1"
clap = { version = "4", features = ["derive"] }
flate2 = "1"
jsonschema = { version = "*", default-features = false }
md5 = "*"
serde = { version = "1", features = ["derive"] }
serde_json = "1"
serde_yml = "*"
unicode-segmentation = "1"
walkdir = "2"
zip = { version = "*", default-features = false, features = ["deflate"] }
