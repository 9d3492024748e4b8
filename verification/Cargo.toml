[package]
name = "shellshock_tracer"
version = "0.1.0"
edition = "2021"

[dependencies]
thiserror = "1"
winapi = { version = "0.3", features = ["windef", "minwindef", "errhandlingapi", "libloaderapi", "wingdi", "winuser"] }
