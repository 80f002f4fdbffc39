[package]
name = "vmod_fileserver"
version = "0.1.0"
edition = "2021"
publish = false

[dependencies]
chrono = "*"
openat = "*"
varnish = "*"
