[package]
name = "family_graph"
version = "0.1.0"
edition = "2021"
publish = false

[dependencies]
clap = { version = "=4.6.7", features = ["derive"] }
libm = "*"
petname = "=3.2.0"
rand = "=0.10.3"
rand_distr = "=0.6.0"
short-uuid = "=0.2.1"
uuid = { version = "=1.27.0", features = ["v4"] }

[dev-dependencies]
dot-parser = "=0.6.1"
