[package]
name = "math_canvas"
version = "0.1.0"
edition = "2021"
publish = false

[dependencies]
macroquad = "0.4"
instant = { version = "0.1", features = ["now"] }
wee_alloc = "0.4"
