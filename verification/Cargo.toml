[package]
name = "lol_query"
version = "0.1.0"
edition = "2021"
publish = false

[dependencies]
lol_html = "*"
scraper = "*"
ego-tree = "*"
