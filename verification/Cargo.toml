[package]
name = "esp_midi"
version = "0.1.0"
edition = "2021"
publish = false

[dependencies]
indexmap = "2"
io_bluetooth = "0.1"
bytemuck = "1"
serde_json = "1"
env_logger = "0.11"
native-dialog = "0.7"
