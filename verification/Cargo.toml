[package]
name = "reconciler"
version = "0.1.0"
edition = "2021"
publish = false

[dependencies]
futures = "*"
k8s-openapi = { version = "*", features = ["latest"] }
kube = { version = "*", default-features = false, features = ["client", "runtime"] }
thiserror = "*"
tokio = { version = "*", features = ["macros", "rt-multi-thread", "time"] }
