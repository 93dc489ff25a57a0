[package]
name = "markdown_math"
version = "0.1.0"
edition = "2021"
publish = false

[dependencies]
pulldown-cmark = { version = "*", default-features = false }
unicode-width = "*"
itertools = "*"
