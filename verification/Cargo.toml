[package]
name = "bpm_chart"
version = "0.1.0"
edition = "2021"
publish = false

[dependencies]
chrono = "*"
plotly = "*"
