[package]
name = "htmlvidiff"
version = "0.1.0"
edition = "2021"
publish = false

[dependencies]
html5tokenizer = "=0.5.2"
similar = "=2.7.0"
itertools = "=0.15.0"
html5ever = "=0.27.0"
markup5ever_rcdom = "=0.3.0"
regex = "=1.13.1"
