[package]
name = "gw2_arbitrage"
version = "2.4.0"
edition = "2021"
publish = false

[dependencies]
bincode = "1"
colored = "2"
csv = "1"
eframe = { version = "0.27", default-features = false, features = ["default_fonts", "glow"] }
egui_extras = { version = "0.27", default-features = false }
flate2 = "1"
futures = "0.3"
image = { version = "0.25", default-features = false, features = ["png"] }
once_cell = "1"
rayon = "1"
reqwest = { version = "0.12", default-features = false, features = ["gzip", "json", "rustls-tls"] }
serde = { version = "1", features = ["derive"] }
serde_json = "1"
serde_path_to_error = "0.1"
tokio = { version = "1", features = ["macros", "rt", "rt-multi-thread", "time"] }
toml = "0.8"
