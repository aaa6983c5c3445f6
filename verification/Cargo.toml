[package]
name = "tonic-consistent-hashing-lb"
version = "0.1.0"
edition = "2021"
publish = false

[dependencies]
fasthash = "0.4"
prost = "0.11"
tonic = "0.9"
tower = { version = "0.4", features = ["discover", "buffer", "util"] }
http = "0.2"
hyper = "0.14"
tokio = { version = "1", features = ["full"] }
anyhow = "1"
kube = { version = "0.80", default-features = false, features = ["client"] }
k8s-openapi = { version = "0.17", default-features = false, features = ["v1_26"] }
