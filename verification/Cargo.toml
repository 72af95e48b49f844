[package]
name = "flow"
version = "0.1.0"
edition = "2021"
publish = false

[dependencies]
ncurses = { version = "=5.101.0", features = ["menu"] }
