[package]
name = "alacritty_panes"
version = "0.1.0"
edition = "2021"
publish = false

[dependencies]
alacritty_config = "=0.2.3"
alacritty_config_derive = "=0.2.5"
alacritty_terminal = { version = "=0.25.1", features = ["serde"] }
glutin = { version = "=0.32.3", default-features = false, features = ["egl"] }
log = "=0.4.35"
serde = { version = "=1.0.229", features = ["derive"] }
serde_json = "=1.0.154"
toml = "=0.9.12"
winit = { version = "=0.30.13", default-features = false, features = ["rwh_06", "x11"] }
