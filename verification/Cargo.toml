[package]
name = "wego-voice"
version = "0.1.0"
edition = "2021"
publish = false

[dependencies]
rtrb = "=0.3.6"
anyhow = "=1.0.104"
log = "=0.4.35"
env_logger = "=0.11.11"
clap = { version = "=4.6.7", features = ["derive"] }
serde = { version = "=1.0.229", features = ["derive"] }
cpal = "=0.18.2"
audio_thread_priority = { version = "=0.38.0", default-features = false }
wasapi = "=0.26.0"
windows = { version = "=0.62.2", features = ["Win32_Foundation", "Win32_Media_Audio", "Win32_System_Com", "Win32_System_Com_StructuredStorage", "Win32_System_Variant", "Win32_Devices_FunctionDiscovery", "Win32_UI_Shell_PropertiesSystem"] }
