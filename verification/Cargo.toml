[package]
name = "noiter"
version = "0.1.0"
edition = "2021"
publish = false

[dependencies]
rand = "=0.10.3"
avian2d = { version = "=0.7.0", default-features = false, features = ["2d", "f32", "parry-f32"] }
bevy = { version = "=0.19.1", default-features = false, features = ["std", "bevy_asset", "bevy_camera", "bevy_image", "bevy_sprite", "bevy_window"] }
wgpu-types = "=29.0.4"
