[package]
name = "shut_the_box"
version = "0.1.0"
edition = "2021"
publish = false

[dependencies]
hdrhistogram = { version = "7", default-features = false }
rand = "0.7"
num_cpus = "1"
termion = "1.5"
tui = "0.12"
