[package]
name = "mdedit"
version = "0.1.0"
edition = "2021"
publish = false

[dependencies]
pulldown-cmark = "0.9"
unicode-segmentation = "1"
unicode-width = "0.1"
