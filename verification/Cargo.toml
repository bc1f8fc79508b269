[package]
name = "trg"
version = "0.1.0"
edition = "2021"
publish = false

[dependencies]
annotate-snippets = "0.11"
anyhow = "1"
rand = "0.9"
rand_distr = "0.5"
uom = "0.36"
winnow = "0.7"
