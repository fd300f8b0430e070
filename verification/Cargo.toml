[package]
name = "toonmux"
version = "0.1.0"
edition = "2021"
publish = false

[dependencies]
rustc-hash = "2"
serde = { version = "1", features = ["derive"] }
serde_json = "1"
gtk = "0.18"
gdk = "0.18"
glib = "0.18"
evdev = "0.13"
libc = "0.2"
libxdo-sys = "0.11"
x11 = { version = "2", features = ["xlib"] }
