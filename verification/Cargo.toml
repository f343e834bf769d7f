[package]
name = "cmaze"
version = "0.1.0"
edition = "2021"
publish = false

[dependencies]
rand = "0.8"
rayon = "1"
crossterm = "0.25"
substring = "1"
