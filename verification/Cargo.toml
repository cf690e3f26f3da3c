[package]
name = "tonic_flatbuffers_build"
version = "0.1.0"
edition = "2021"
publish = false

[dependencies]
regex = "1"
syn = { version = "2", features = ["full"] }
prettyplease = "0.2"
tonic-build = "0.13"
protobuf-src = "*"
flatbuffers-build = "*"
