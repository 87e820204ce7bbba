[package]
name = "zuzu_designer"
version = "0.1.0"
edition = "2021"
publish = false

[dependencies]
roxmltree = "0.20"
gtk4 = "0.9"
gio = "0.20"
