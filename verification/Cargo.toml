[package]
name = "npuzzle"
version = "0.1.0"
edition = "2021"
publish = false

[dependencies]
piston_window = "*"
piston2d-opengl_graphics = "*"
piston2d-graphics = "*"
find_folder = "*"
