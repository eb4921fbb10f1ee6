[package]
name = "nor_hdl"
version = "0.1.0"
edition = "2021"
publish = false

[dependencies]
nom = "5"
walkdir = "2"
