[package]
name = "nginx_log_parser"
version = "0.1.0"
edition = "2021"

[dependencies]
regex = "1"
failure = "0.1"
