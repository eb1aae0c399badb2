[package]
name = "arena_combat"
version = "0.1.0"
edition = "2021"
publish = false

[dependencies]
bevy = { version = "0.9", default-features = false, features = ["bevy_asset", "bevy_winit", "render", "png", "x11"] }
bevy_rapier2d = "0.20"
bevy_ecs_ldtk = "0.5"
bevy-inspector-egui = "0.17"
