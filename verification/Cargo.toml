[package]
name = "flashtext2"
version = "0.1.0"
edition = "2021"
publish = false

[dependencies]
unicode-segmentation = "1"
unicase = "2"
fxhash = "0.2"
case_insensitive_hashmap = "*"
