[package]
name = "laser_lattice"
version = "0.1.0"
edition = "2021"
publish = false

[dependencies]
rosc = "*"
libloading = "*"
find_folder = "*"
