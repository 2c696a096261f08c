[package]
name = "voxel_terrain"
version = "0.1.0"
edition = "2021"
publish = false

[dependencies]
cgmath = "=0.18.0"
noise = "=0.9.0"
log = "=0.4.34"
time = "=0.1.45"
thread-scoped = "=1.0.2"
sdl2 = "=0.38.0"
gl = "=0.14.0"
