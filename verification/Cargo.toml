[package]
name = "wlcompositor"
version = "0.1.0"
edition = "2021"
publish = false

[dependencies]
smithay = { version = "=0.7.0", default-features = false, features = ["backend_winit", "desktop", "renderer_gl", "wayland_frontend"] }
wayland-protocols-wlr = { version = "=0.3.12", features = ["server"] }
