[package]
name = "minipack"
version = "0.1.0"
edition = "2021"
publish = false

[dependencies]
css-module-lexer = "*"
sanitize-filename = "*"
itoa = "*"
anyhow = "*"
