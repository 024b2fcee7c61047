[package]
name = "dem_cfd"
version = "0.1.0"
edition = "2021"
publish = false

[dependencies]
serde = { version = "=1.0.229", features = ["derive"] }
grass_multi = "=0.1.1"
grass_app = "=0.1.1"
grass_scheduler = "=0.1.1"
soil_core = { version = "=0.1.4", default-features = false, features = ["precision-double"] }
soil_verlet = "=0.1.4"
