[package]
name = "osm_processor"
version = "0.1.0"
edition = "2021"
publish = false

[dependencies]
anyhow = "1"
indicatif = "0.17"
osmpbf = "0.3"
polars = { version = "0.41", default-features = false, features = ["fmt", "lazy", "parquet"] }
rayon = "1"
