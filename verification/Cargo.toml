[package]
name = "udp_conditioner"
version = "0.1.0"
edition = "2021"
publish = false

[dependencies]
clap = { version = "=4.6.7", features = ["derive"] }
eframe = { version = "=0.37.0", default-features = false, features = ["default_fonts", "wgpu", "x11"] }
flume = "=0.12.0"
rand = "=0.10.3"
tokio = { version = "=1.54.1", features = ["net", "rt-multi-thread", "sync", "time"] }
