[package]
name = "flow_lang"
version = "0.1.0"
edition = "2021"

[dependencies]
nom = "=7.1.3"
