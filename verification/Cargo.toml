[package]
name = "qpp_rng"
version = "0.1.0"
edition = "2021"
publish = false

[dependencies]
rand_core = "=0.10.1"
sha2 = "=0.11.1"
ascon-aead128 = { version = "=0.1.1", default-features = false }
# Not called directly: ascon-aead128 0.1.1 builds only against this
# release of its `ascon` dependency, which a plain resolve would not pick.
ascon = "=0.5.0-rc.0"
serde = { version = "=1.0.229", features = ["derive"] }
serde_json = "=1.0.154"
anyhow = "=1.0.104"
clap = { version = "=4.6.7", features = ["derive"] }

[dev-dependencies]
proptest = "=1.12.0"
