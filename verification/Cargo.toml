[package]
name = "value-log"
version = "1.0.0"
edition = "2021"
publish = false

[dependencies]
byteorder = "=1.5.0"
byteview = "=0.10.2"
crc32fast = "=1.5.3"
interval-heap = "=0.0.5"
log = "=0.4.34"
tempfile = "=3.27.0"
varint-rs = "=2.2.1"

[dev-dependencies]
lz4_flex = "*"
