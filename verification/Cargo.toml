[package]
name = "ruterminals"
version = "0.1.0"
edition = "2021"
publish = false

[dependencies]
chrono = "*"
chrono-tz = "*"
geographiclib-rs = "*"
pyo3 = "*"
rayon = "*"
rusqlite = { version = "*", features = ["bundled"] }
walkdir = "*"
