[package]
name = "sketchdb"
version = "0.1.0"
edition = "2021"
publish = false

[dependencies]
byteorder = "1"
clap = { version = "3", features = ["derive"] }
counter = "0.5"
env_logger = "0.9"
histogram = "0.6"
log = "0.4"
numsep = "0.1"
rayon = "1"
rocksdb = "0.18"
size = "0.4"
sourmash = "0.11"
twox-hash = "1.6"
