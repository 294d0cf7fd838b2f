[package]
name = "robotics"
version = "0.1.0"
edition = "2021"
publish = false

[dependencies]
array-init = "2.1.0"
num-traits = "0.2.19"
plotly = "0.8.4"
