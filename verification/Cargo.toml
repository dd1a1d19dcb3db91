[package]
name = "hackrf_gnss"
version = "0.1.0"
edition = "2021"
publish = false

[dependencies]
num-complex = "0.4"
rayon = "1"
rustfft = "6"
serde = { version = "1", features = ["derive"] }
sgp4 = "2"
