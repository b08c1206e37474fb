[package]
name = "memento"
version = "0.1.0"
edition = "2021"
publish = false

[dependencies]
byteorder = "1"
chrono = "0.4"
fs2 = "0.4"
memmap = "0.7"
nom = "7"
