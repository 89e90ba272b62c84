[package]
name = "region_lines"
version = "0.1.0"
edition = "2021"
publish = false

[dependencies]
osmpbfreader = "*"
shapefile = "*"
