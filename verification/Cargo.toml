[package]
name = "qbsdiff"
version = "1.2.0"
edition = "2021"
publish = false

[dependencies]
bzip2 = "=0.3.3"
rayon = "=1.12.0"
suffix_array = { version = "=0.4.0", default-features = false }
