[package]
name = "pwdchk"
version = "0.1.0"
edition = "2021"
publish = false

[dependencies]
sha1 = "*"
rayon = "*"
reqwest = { version = "*", default-features = false, features = ["blocking"] }
clap = { version = "*", features = ["derive"] }
eyre = "*"
color-eyre = "*"
