[package]
name = "osmgraphing"
version = "0.1.0"
edition = "2021"
publish = false

[dependencies]
smallvec = "1"
kissunits = "*"
log = "0.4"
serde = { version = "1", features = ["derive"] }
osmpbfreader = "*"
quick-xml = "*"
progressing = "*"
actix-web = "*"
actix-files = "*"
nd-triangulation = "*"
