[package]
name = "shell_core"
version = "0.1.0"
edition = "2021"
publish = false

[dependencies]
dirs = "*"
getopts = "*"
glob = "*"
whoami = "*"

[dev-dependencies]
tempfile = "*"
