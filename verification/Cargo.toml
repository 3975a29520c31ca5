[package]
name = "worklog"
version = "0.1.0"
edition = "2021"
publish = false

[dependencies]
chrono = "=0.4.45"
directories = "=6.0.0"
genpdf = "=0.2.0"
pulldown-cmark = "=0.13.6"
rusqlite = { version = "=0.41.1", features = ["bundled"] }
user-idle = "*"
wayland-client = "=0.31.15"
wayland-protocols = { version = "=0.32.13", features = ["client", "staging"] }
