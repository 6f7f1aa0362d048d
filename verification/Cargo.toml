[package]
name = "terminator2"
version = "0.1.0"
edition = "2021"
publish = false

[dependencies]
uuid = { version = "1", features = ["v4"] }
glib = "*"
gtk4 = "*"
vte4 = "*"
