[package]
name = "fivepoints_calc"
version = "0.1.0"
edition = "2021"
publish = false

[dependencies]
image = { version = "0.25", default-features = false, features = ["png"] }
imagequant = "4.4.1"
plotters = "0.3"
png = "0.17"
