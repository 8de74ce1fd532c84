[package]
name = "pathmap"
version = "0.1.0"
edition = "2021"
publish = false

[dependencies]
libz-ng-sys = "1"
