[package]
name = "block_codec"
version = "0.1.0"
edition = "2021"
publish = false

[dependencies]
gdk-pixbuf = "0.9"
gio = "0.9"
glib = "0.10"
gtk = "0.9"
