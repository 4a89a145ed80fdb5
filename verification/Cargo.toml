[package]
name = "jaeger_thrift"
version = "0.1.0"
edition = "2021"
publish = false

[dependencies]
rand = "*"
minitrace = "*"
