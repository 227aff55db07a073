[package]
name = "mediaplayer_controller"
version = "0.2.0"
edition = "2021"
publish = false

[dependencies]
clap = "=4.6.7"
confy = "=2.0.0"
dbus = { version = "=0.9.12", features = ["vendored"] }
serde = { version = "=1.0.229", features = ["derive"] }
serde_derive = "=1.0.229"
