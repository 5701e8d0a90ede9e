[package]
name = "cedar_server"
version = "0.1.0"
edition = "2021"
publish = false

[dependencies]
async-trait = "0.1"
canonical-error = "*"
chrono = "0.4"
log = "0.4"
numeris = "0.5"
pico-args = "*"
prost-types = "*"
serde_json = "1"
tetra3 = "0.9.0"
tokio = { version = "1", features = ["rt-multi-thread", "macros", "sync", "time"] }
