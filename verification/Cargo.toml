[package]
name = "window_decorations"
version = "0.1.0"
edition = "2021"
publish = false

[dependencies]
log = "0.4"
tempfile = "3"
unicode-width = "0.2"
wayland-backend = { version = "0.3", features = ["client_system", "dlopen"] }
wayland-client = "0.31"
wayland-protocols = { version = "0.32", features = ["client", "staging"] }
wayland-protocols-plasma = { version = "0.3", features = ["client"] }
winit = { version = "0.30", default-features = false, features = ["rwh_06", "wayland", "wayland-dlopen"] }
