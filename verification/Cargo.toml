[package]
name = "ws2811-spi"
version = "0.1.0"
edition = "2021"
publish = false

[dependencies]
embedded-hal = "0.2"
nb = "0.1"
smart-leds-trait = "0.2"
