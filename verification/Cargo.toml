[package]
name = "nvpool"
version = "0.1.0"
edition = "2021"
publish = false

[dependencies]
linked_list_allocator = "=0.10.6"
x86_64 = { version = "=0.15.5", default-features = false, features = ["instructions"] }
uuid = "=1.29.0"
log = "=0.4.35"
multiboot2 = "=0.24.0"
uefi = "=0.35.0"
uefi-raw = "=0.11.0"
chrono = { version = "=0.4.45", default-features = false, features = ["alloc"] }
smoltcp = { version = "=0.12.0", default-features = false, features = ["medium-ethernet", "proto-ipv4", "socket-tcp", "alloc"] }
