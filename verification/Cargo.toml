[package]
name = "taskman"
version = "0.1.0"
edition = "2021"
publish = false

[dependencies]
fontdue = "=0.9.5"
ttf-parser = { version = "=0.25.1", default-features = false, features = ["opentype-layout", "no-std-float"] }
nvml-wrapper = "=0.10.0"
sysinfo = { version = "=0.33.1", default-features = false, features = ["system", "network"] }
winit = { version = "=0.30.13", default-features = false, features = ["x11", "wayland", "wayland-dlopen", "rwh_06"] }
