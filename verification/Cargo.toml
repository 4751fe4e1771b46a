[package]
name = "gazetteer"
version = "0.1.0"
edition = "2021"
publish = false

[dependencies]
csv = "*"
iron = "*"
mount = "*"
router = "*"
serde = "*"
serde_derive = "*"
serde_json = "*"
staticfile = "*"
urlencoded = "*"
