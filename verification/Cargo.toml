[package]
name = "plonk_gadgets"
version = "0.1.0"
edition = "2021"
publish = false

[dependencies]
dusk-plonk = "=0.8.2"
# Not used by this crate itself: dusk-plonk builds on these two, and they are
# held below their latest releases, which ask for a newer compiler.
dusk-bytes = "<0.1.8"
derive-hex = "<0.1.3"

[dev-dependencies]
rand = "=0.8.8"
