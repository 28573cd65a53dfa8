[package]
name = "treeserve"
version = "0.1.0"
edition = "2021"
publish = false

[dependencies]
comrak = "=0.55.0"
pulldown-latex = "=0.8.0"
mermaid-rs-renderer = "=0.3.1"
libm = "=0.2.16"
syntect = { version = "=5.3.0", default-features = false, features = ["default-syntaxes", "default-themes", "html", "regex-onig"] }
