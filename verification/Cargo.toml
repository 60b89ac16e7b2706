[package]
name = "git_index"
version = "0.1.0"
edition = "2021"
publish = false

[dependencies]
sha1 = "*"
sha2 = "*"
bstr = "*"
