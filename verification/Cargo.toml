[package]
name = "navi-core"
version = "1.0.0"
edition = "2021"
publish = false

[dependencies]
dirs = "5"
regex = "1"
rusqlite = { version = "0.31", features = ["bundled"] }
serde = { version = "1", features = ["derive"] }
serde_json = "1"
rayon = "1"
egui = "0.30"
egui_glow = { version = "0.30", features = ["winit"] }
egui-winit = "0.30"
glow = "0.16"
glutin = "0.32"
glutin-winit = "0.5"
winit = "0.30"
raw-window-handle = "0.6"
objc2 = "0.6"
objc2-app-kit = "0.3"
objc2-foundation = "0.3"
objc2-quartz-core = "0.3"
