[package]
name = "wordle"
version = "0.1.0"
edition = "2021"
publish = false

[dependencies]
rand = "*"
clap = { version = "*", features = ["derive"] }
colored = "*"
rayon = "*"
serde = { version = "*", features = ["derive"] }
serde_json = "*"
thirtyfour_sync = "*"
