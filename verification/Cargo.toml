[package]
name = "pck_tweaker"
version = "0.1.0"
edition = "2021"
publish = false

[dependencies]
md-5 = "*"
structopt = "*"
color-eyre = "*"
