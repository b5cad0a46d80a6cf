[package]
name = "falling_sand"
version = "0.1.0"
edition = "2021"
publish = false

[dependencies]
nalgebra-glm = "0.21.0"
embedded-graphics = "0.8.2"
defmt = "1.2.0"
defmt-rtt = "1.3.1"
panic-probe = "1.0.0"
cortex-m-rt = "0.7.7"
embassy-futures = "0.1.2"
embassy-time = "*"
embedded-alloc = "0.7.0"
embedded-hal = "1.0.0"
embedded-hal-bus = "0.3.0"
lcd-async = "0.1.3"
static_cell = "2.1.1"
