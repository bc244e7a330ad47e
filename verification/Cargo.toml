[package]
name = "forward_secure_sig"
version = "0.1.0"
edition = "2021"
publish = false

[dependencies]
amcl_wrapper = "*"
rand = "*"
