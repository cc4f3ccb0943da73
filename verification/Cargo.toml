[package]
name = "ecumene"
version = "0.1.0"
edition = "2021"
publish = false

[dependencies]
cssparser = "=0.29.6"
geo = "*"
yaml-rust = "*"
getopts = "*"
image = "*"
cairo-rs = "*"
gdal = "*"
proj = "*"
