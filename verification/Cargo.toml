[package]
name = "rectree2svg"
version = "2.2.0"
edition = "2021"
publish = false

[dependencies]
draw = "*"
env_logger = "0.8"
getopt = "1"
log = "0.4"
random_color = "*"
roxmltree = "0.14"
svg = "0.9"
taxonomy = "*"
webbrowser = "0.5"
