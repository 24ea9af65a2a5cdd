[package]
name = "sqp"
version = "0.1.0"
edition = "2021"
publish = false

[dependencies]
anyhow = "1"
byteorder = "1"
clap = { version = "4", features = ["derive"] }
image = { version = "0.25", default-features = false, features = ["png", "jpeg"] }
integer-encoding = "4"
rayon = "1"
text_io = "0.1"
thiserror = "1"
