[package]
name = "burstsort"
version = "0.1.0"
edition = "2021"
publish = false

[dependencies]
array-init = "2"
rayon = "1"
rand = "0.8"
unicode-segmentation = "1"
criterion = "0.5"
jemallocator = "0.5"

[dev-dependencies]
quickcheck = "1"
