[package]
name = "salvosim"
version = "0.1.0"
edition = "2021"
publish = false

[dependencies]
rand = "*"
rand_distr = "*"
serde = { version = "1", features = ["derive"] }
toml = "*"
clap = "4"
rocket = "0.5"
rocket_dyn_templates = { version = "0.2", features = ["tera"] }
