[package]
name = "rotom_core"
version = "0.1.0"
edition = "2021"
publish = false

[dependencies]
limine = "=0.6.5"
x86 = "=0.52.0"
