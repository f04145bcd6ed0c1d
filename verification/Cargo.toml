[package]
name = "avrobench"
version = "0.1.0"
edition = "2021"
publish = false

[dependencies]
miniz_oxide = "*"

[dev-dependencies]
apache-avro = "*"
