[package]
name = "typeahead"
version = "0.1.0"
edition = "2021"
publish = false

[dependencies]
patricia_tree = "*"
string-interner = "*"
levenshtein = "*"
serde = { version = "*", features = ["derive"] }
serde_json = "*"
tiny_http = "*"
walkdir = "*"
