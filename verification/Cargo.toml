[package]
name = "fvq"
version = "0.1.0"
edition = "2021"
publish = false

[dependencies]
clap = { version = "=4.6.7", features = ["derive"] }
colcon = "=0.10.1"
image = "=0.25.10"
multidimension = "=0.3.3"
num-traits = "*"
