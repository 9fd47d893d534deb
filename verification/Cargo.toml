[package]
name = "image_maker"
version = "0.1.3"
edition = "2021"
publish = false

[dependencies]
clap = "2"
easy-fs = "*"
tianmu-fs = "*"
