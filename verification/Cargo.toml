[package]
name = "not_asteroids"
version = "0.1.0"
edition = "2021"
publish = false

[dependencies]
cgmath = "=0.16.1"
getopts = "=0.2.24"
itertools = "=0.7.11"
mio = "=0.6.23"
piston2d-graphics = "=0.35.0"
piston_window = "=0.105.0"
rand = "=0.4.6"
rmp = "=0.8.9"
rmp-serde = "=0.14.4"
rusttype = "=0.7.9"
serde = { version = "1.0", features = ["derive"] }
smallvec = { version = "=0.6.14", features = ["serde"] }
