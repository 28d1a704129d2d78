[package]
name = "roa_wizard_lib"
version = "0.1.0"
edition = "2021"
publish = false

[dependencies]
cidr-utils = "=0.6.2"
json = "=0.12.4"
