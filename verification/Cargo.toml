[package]
name = "rttui"
version = "0.1.0"
edition = "2021"
publish = false

[dependencies]
anyhow = "=1.0.104"
chrono = "=0.4.45"
crossterm = "=0.25.0"
defmt-decoder = { version = "=0.1.4", features = ["unstable"] }
defmt-elf2table = { version = "=0.1.0", features = ["unstable"] }
goblin = "=0.10.7"
log = "=0.4.34"
probe-rs-rtt = "=0.14.2"
serde = { version = "=1.0.229", features = ["derive"] }
textwrap = "=0.16.4"
tui = { version = "=0.19.0", default-features = false, features = ["crossterm"] }
