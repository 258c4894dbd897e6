[package]
name = "g2_isogeny"
version = "0.1.0"
edition = "2021"
publish = false

[dependencies]
deepsize = "0.2"
sysinfo = "0.30"
serde = { version = "1", features = ["derive"] }
csv = "1"
fs2 = "0.4"
rand = "0.9"
chrono = "0.4"
