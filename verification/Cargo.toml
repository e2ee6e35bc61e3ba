[package]
name = "netray"
version = "0.1.0"
edition = "2021"
publish = false

[dependencies]
anyhow = "=1.0.104"
bytesize = "=1.3.3"
sysinfo = { version = "=0.30.13", default-features = false }
tray-icon = "=0.19.3"
winit = { version = "=0.30.13", default-features = false, features = ["rwh_06", "x11", "wayland", "wayland-dlopen"] }
objc2 = "=0.5.3"
objc2-app-kit = { version = "=0.2.2", features = ["all"] }
objc2-foundation = { version = "=0.2.2", features = ["all"] }
