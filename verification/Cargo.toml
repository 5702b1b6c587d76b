[package]
name = "filaments"
version = "0.1.0"
edition = "2021"
publish = false

[dependencies]
nanoid = "=0.5.0"
rand = "=0.10.3"
nucleo-matcher = "=0.3.1"
rgb = "=0.8.53"
crossterm = "=0.29.0"
kdl = "=6.7.1"
directories = "=6.0.0"
clap = { version = "=4.6.7", features = ["derive"] }
