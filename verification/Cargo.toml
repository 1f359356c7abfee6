[package]
name = "dotfiles"
version = "0.1.0"
edition = "2021"
publish = false

[dependencies]
dirs = "5"
flate2 = "1"
git2 = { version = "0.19", default-features = false }
log = "0.4"
simplelog = "0.12"
tar = "0.4"
