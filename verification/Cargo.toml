[package]
name = "snmp_walk"
version = "0.1.0"
edition = "2021"
publish = false

[dependencies]
snmp = "0.2"
