[package]
name = "svgcleaner"
version = "0.1.0"
edition = "2021"
publish = false

[dependencies]
svgdom = "0.6"
