[package]
name = "gdal_alt_core"
version = "0.1.0"
edition = "2021"
publish = false

[dependencies]
anyhow = "=1.0.104"
geo = "=0.33.1"
geojson = "=1.0.0"
geotiff-core = "=0.10.0"
geotiff-reader = "=0.10.0"
geotiff-writer = "=0.10.0"
jpeg2k = "=0.10.1"
memmap2 = "=0.9.12"
ndarray = "=0.17.2"
rayon = "=1.12.0"
reqwest = { version = "=0.13.5", default-features = false, features = ["blocking"] }
serde = { version = "=1.0.229", features = ["derive"] }
serde_json = "=1.0.154"
tempfile = "=3.27.0"
tiff-core = "=0.10.0"
tiff-reader = "=0.10.0"
tiff-writer = "=0.10.0"
