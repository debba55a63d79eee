[package]
name = "blog_os_verified"
version = "0.1.0"
edition = "2021"
publish = false

[dependencies]
bit_field = "=0.10.3"
x86_64 = { version = "=0.14.13", default-features = false, features = ["instructions"] }
bootloader = { version = "=0.9.35", features = ["map_physical_memory"] }
lazy_static = { version = "=1.5.1", features = ["spin_no_std"] }
spin = "=0.5.2"
volatile = "=0.2.7"
uart_16550 = "=0.2.19"
pic8259_simple = "=0.2.0"
pc-keyboard = "=0.5.1"
linked_list_allocator = { version = "=0.9.1", default-features = false, features = ["use_spin"] }
