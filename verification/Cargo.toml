[package]
name = "fastlem"
version = "0.1.0"
edition = "2021"
publish = false

[dependencies]
terrain-graph = "*"
voronoice = "=0.2.0"
naturalneighbor = "*"
rand = "=0.8.8"
thiserror = "=1.0.69"
