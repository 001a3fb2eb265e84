[package]
name = "bpe_tokeniser"
version = "0.1.0"
edition = "2021"
publish = false

[dependencies]
colored = "=2.2.0"
daachorse = "=1.0.1"
eframe = { version = "=0.27.2", default-features = false, features = ["glow"] }
egui = "=0.27.2"
fst = "=0.4.7"
rand = "=0.8.8"
rayon = "=1.12.0"
serde_json = "=1.0.154"
