[package]
name = "plmidi"
version = "0.1.0"
edition = "2021"
publish = false

[dependencies]
nodi = { version = "=1.0.3", default-features = false, features = ["hybrid-sleep"] }
rand = "=0.8.8"
futures = "=0.3.34"
crossterm = { version = "=0.27.0", features = ["event-stream"] }
log = "=0.4.35"
simple_logger = { version = "=4.3.3", default-features = false }
wild = "=2.2.1"
clap = "=3.2.25"
midir = "=0.6.2"
fluidlite = "=0.2.1"
eframe = { version = "=0.27.2", default-features = false, features = ["default_fonts", "glow"] }
