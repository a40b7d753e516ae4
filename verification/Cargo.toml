[package]
name = "remotedesk"
version = "0.1.0"
edition = "2021"
publish = false

[dependencies]
regex = "*"
x11 = { version = "*", features = ["xlib"] }
libxdo = "*"
libc = "*"
