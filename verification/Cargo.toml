[package]
name = "orbitive"
version = "0.3.13"
edition = "2021"
publish = false

[dependencies]
bytes = "1"
clap = { version = "4", features = ["derive"] }
dashmap = "*"
libc = "0.2"
lru = "*"
netid64 = "*"
tokio = { version = "1", features = ["net", "rt", "time"] }
