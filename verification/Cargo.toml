[package]
name = "tfg_ml"
version = "0.1.0"
edition = "2021"
publish = false

[dependencies]
rand = "0.8"
csv = "1"
itertools = "0.12"
linfa = "0.7"
linfa-trees = "0.7"
linfa-clustering = "0.7"
linfa-linear = "0.7"
linfa-logistic = "0.7"
ndarray = "0.15"
smartcore = "0.3"
plotters = { version = "0.3", default-features = false, features = ["bitmap_backend", "bitmap_encoder", "point_series"] }
