[package]
name = "fuzzy_search"
version = "0.1.0"
edition = "2021"
publish = false

[dependencies]
fst = { version = "=0.4.7", features = ["levenshtein"] }
roaring = "=0.11.5"
text_distance = "=0.5.0"
