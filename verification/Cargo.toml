[package]
name = "yenta"
version = "0.1.0"
edition = "2021"
publish = false

[dependencies]
min-max-heap = "*"
strsim = "*"
csv = "*"
serde = { version = "*", features = ["derive"] }
anyhow = "*"
rayon = "*"
structopt = "*"
deunicode = "*"
soundex = "*"
colored = "*"
ansi_term = "*"
indicatif = { version = "*", features = ["rayon"] }
