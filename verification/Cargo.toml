[package]
name = "epd_band"
version = "0.1.0"
edition = "2021"
publish = false

[dependencies]
cortex-m = "=0.7.9"
cortex-m-rt = "*"
defmt = "=1.1.1"
defmt-rtt = "=1.3.0"
embedded-hal = "=1.0.0"
fugit = "=0.3.9"
nb = "=1.1.0"
panic-probe = "=1.0.0"
pimoroni_badger2040 = "=0.6.0"
