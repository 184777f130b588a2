[package]
name = "folder_compare"
version = "0.1.0"
edition = "2021"
publish = false

[dependencies]
anyhow = "1"
git-version = "0.3"
pico-args = "0.5"
rand = "0.8"
rayon = "1"
sha2 = "0.10"
walkdir = "2"
