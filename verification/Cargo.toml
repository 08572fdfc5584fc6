[package]
name = "lan_chat"
version = "0.1.0"
edition = "2021"
publish = false

[dependencies]
postcard = { version = "=1.1.3", features = ["use-std"] }
crossbeam-channel = "=0.5.17"
socket2 = { version = "=0.6.5", features = ["all"] }
if-addrs = "=0.15.0"
log = "=0.4.35"
env_logger = "=0.11.11"
rand = "=0.10.3"
gethostname = "=1.1.0"
cpal = "=0.18.2"
eframe = { version = "=0.37.0", default-features = false, features = ["default_fonts", "wgpu", "x11", "wayland"] }
