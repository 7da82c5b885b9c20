[package]
name = "dc"
version = "0.1.0"
edition = "2021"
publish = false

[dependencies]
cssparser = "*"
html5ever = "0.27"
markup5ever_rcdom = "0.3"
