[package]
name = "cuebasic"
version = "0.1.0"
edition = "2021"
publish = false

[dependencies]
anyhow = "1"
bpaf = { version = "*", features = ["derive"] }
itertools = "*"
logos = "*"
num-bigint = "0.4"
num-traits = "0.2"
scientific = "*"
tracing = "0.1"
tracing-subscriber = "0.3"

[dev-dependencies]
serde_json = "1"
