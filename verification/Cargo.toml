[package]
name = "cqels_core"
version = "0.1.0"
edition = "2021"
publish = false

[dependencies]
async-trait = "0.1"
futures = "0.3"
oxigraph = { version = "0.4", default-features = false }
oxrdf = "0.2"
rayon = "1"
thiserror = "1"
