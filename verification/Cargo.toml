[package]
name = "zip_source"
version = "0.1.0"
edition = "2021"
publish = false

[dependencies]
log = "0.4"
pathdiff = "0.2"
pretty_env_logger = "0.5"
size = "0.4"
threadpool = "1"
walkdir = "2"
zip = { version = "0.6", default-features = false, features = ["deflate"] }
