[package]
name = "wfb_ng"
version = "0.1.0"
edition = "2021"
publish = false

[dependencies]
getopts = "=0.2.24"
glib = "0.18"
gstreamer = "0.21"
gstreamer-rtsp-server = "0.21"
libc = "=0.2.191"
libsodium-sys = "=0.2.7"
memoffset = "=0.9.1"
pcap-sys = "=0.1.3"
sodiumoxide = "=0.2.7"
