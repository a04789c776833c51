[package]
name = "rabitq_ivf"
version = "0.1.0"
edition = "2021"
publish = false

[dependencies]
crc32fast = "1"
matrixmultiply = "0.3"
object_store = { version = "0.13", features = ["aws"] }
rand = "0.8"
rayon = "1"
roaring = "*"
tokio = { version = "1", features = ["rt-multi-thread"] }
