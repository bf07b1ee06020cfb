[package]
name = "promptgen"
version = "0.1.0"
edition = "2021"
publish = false

[dependencies]
globset = "*"
serde_json = "*"
html2text = "*"
shell-words = "*"
rayon = "*"
num-format = "*"
