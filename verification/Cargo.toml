[package]
name = "alias_helper"
version = "0.1.0"
edition = "2021"
publish = false

[dependencies]
fancy-regex = "*"
log = "*"
env_logger = "*"
colog = "*"
colored = "*"
exitcode = "*"
