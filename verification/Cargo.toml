[package]
name = "gps_tracker"
version = "0.1.0"
edition = "2021"
publish = false

[dependencies]
cortex-m = "0.7"
cortex-m-rt = "0.7"
critical-section = { version = "1", features = ["std"] }
nrf52832-hal = "*"
panic-halt = "*"
rtt-target = "*"
