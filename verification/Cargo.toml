[package]
name = "word_index"
version = "0.1.0"
edition = "2021"
publish = false

[dependencies]
caseless = "*"
configparser = "*"
unicode-normalization = "*"
unicode-segmentation = "*"
walkdir = "*"

[dependencies.zip]
version = "*"
default-features = false
features = ["deflate"]
