[package]
name = "raytrace"
version = "0.1.0"
edition = "2021"
publish = false

[dependencies]
itertools = "=0.15.0"
glam = "=0.34.2"
rayon = "=1.12.0"
fastrand = "=2.5.0"
chrono = { version = "=0.4.45", default-features = false, features = ["clock"] }
tobj = "=4.0.5"
num = "=0.4.3"
rand = "=0.9.5"
image = { version = "0.25", default-features = false, features = ["png", "hdr", "exr"] }
oidn = "*"
