[package]
name = "gstnada"
version = "0.1.0"
edition = "2021"
publish = false

[dependencies]
bitreader = "0.3"
hashbrown = "0.12"
glib = "0.15"
gstreamer = "0.18"
gstreamer-base = "0.18"
gstreamer-rtp = "0.18"
gstreamer-video = "0.18"
gstreamer-sys = "0.18"
once_cell = "1"
argparse = "0.2"
failure = "0.1"
lazy_static = "1"
gtypes = "0.2"
