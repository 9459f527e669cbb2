[package]
name = "kernel_alloc"
version = "0.1.0"
edition = "2021"
publish = false

[dependencies]
num-integer = { version = "0.1", default-features = false }
num-iter = { version = "0.1", default-features = false }
num_enum = { version = "*", default-features = false }
spin = "0.9"
lazy_static = "1"
bitflags = "1"
arrayvec = { version = "0.7", default-features = false }
volatile = "0.4"
x86_64 = { version = "*", default-features = false, features = ["instructions"] }
pic8259 = "*"
pc-keyboard = "*"
uart_16550 = "*"

[dev-dependencies]
rand = "0.9"
