[package]
name = "event_port_watcher"
version = "0.1.0"
edition = "2021"
publish = false

[dependencies]
allocative = "0.3.6"
anyhow = "1.0.104"
async-trait = "0.1.92"
camino = "1.2.6"
dupe = "0.9.1"
libc = "0.2.191"
starlark_map = "0.14.2"
tracing = "0.1.44"
