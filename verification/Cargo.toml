[package]
name = "particle_simulation"
version = "0.1.0"
edition = "2021"
publish = false

[dependencies]
rand = "0.8"
piston = "*"
piston2d-graphics = "*"
pistoncore-glutin_window = "*"
piston2d-opengl_graphics = "*"
