[package]
name = "lance_dataset"
version = "0.1.0"
edition = "2021"
publish = false

[dependencies]
arrow-array = { version = "55", default-features = false }
arrow-schema = { version = "55", default-features = false }
log = "0.4"
object_store = { version = "0.12", default-features = false }
roaring = "0.10"
uuid = { version = "1", features = ["v4"] }
